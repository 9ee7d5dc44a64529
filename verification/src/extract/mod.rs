//! Walks the syntax tree and extracts documented symbols.

use vstd::prelude::*;
use crate::text::{chars_of, string_from_chars, string_from_bytes, chars_eq, trim_chars, trim_start_chars,
    char_is_whitespace, has_at, unicode_white_space, trim};
use crate::syntax::{SyntaxTree, tree_ok, children_ok};
use crate::source::node_text;
use vstd::utf8::encode_utf8;
use crate::comments::{Comments, lines_fit, block_scan};
use crate::preprocess::{Preprocessed, Macro};
use crate::expr::render::{Renderer, render_source};
use crate::expr::parse::{old_tag_to_type, tag_type};
use crate::schema::{Argument, Constant, Declaration, Define, DocLocation, Documentation, EnumStruct, Entry,
    Enumeration, Field, Function, MethodMap, Property, Strand, Type, TypeDefinition, TypeSet, TypeSignature};
use crate::schema::symbol_map::SymbolMap;
use crate::schema::signature::parse_type_signature;
use crate::chronicle::{Chronicled, keyed, strand_keyed, insert_keyed};
use self::types::{TypeParts, push_all, texts, concat, amp, const_prefix};
use self::body::{returns_value, returns_at};
use self::docs::{parse_doc_comment, doc_comment_of};
use crate::schema::tags_view;
use crate::text::utf8_lossy;

pub mod types;
pub mod body;
pub mod docs;

verus! {

/// How many of the first `k` line starts are at or before `offset`
pub open spec fn starts_upto(starts: Seq<usize>, offset: usize, k: int) -> nat
    decreases k,
{
    if k <= 0 {
        0
    } else {
        starts_upto(starts, offset, k - 1) + if starts[k - 1] <= offset { 1nat } else { 0nat }
    }
}

/// Whether node `c` fills field `name` of its parent
pub open spec fn fills(t: SyntaxTree, c: int, name: Seq<char>) -> bool {
    t.nodes@[c].field matches Some(f) && f@ == name
}

/// The first `k` children of node `i` that fill field `name`, in order
pub open spec fn field_children(t: SyntaxTree, i: int, name: Seq<char>, k: int) -> Seq<usize>
    decreases k,
{
    if k <= 0 || k > t.children@[i]@.len() {
        Seq::empty()
    } else {
        let rest = field_children(t, i, name, k - 1);
        let c = t.children@[i]@[k - 1];
        if fills(t, c as int, name) {
            rest.push(c)
        } else {
            rest
        }
    }
}

/// The children of node `i` that fill field `name`, in order
pub open spec fn field_of(t: SyntaxTree, i: int, name: Seq<char>) -> Seq<usize> {
    field_children(t, i, name, t.children@[i]@.len() as int)
}

/// The first child of `i` filling field `name`, if any
pub open spec fn first_field(t: SyntaxTree, i: int, name: Seq<char>) -> Option<usize> {
    if field_of(t, i, name).len() > 0 {
        Some(field_of(t, i, name)[0])
    } else {
        None
    }
}

/// Position of the first identifier among `ns` from `k`
pub open spec fn first_identifier(t: SyntaxTree, ns: Seq<usize>, k: int) -> Option<int>
    decreases ns.len() - k,
{
    if k < 0 || k >= ns.len() {
        None
    } else if t.nodes@[ns[k] as int].kind@ == seq!['i', 'd', 'e', 'n', 't', 'i', 'f', 'i', 'e', 'r'] {
        Some(k)
    } else {
        first_identifier(t, ns, k + 1)
    }
}

/// The name of node `i`: the text of the first identifier filling its
/// `name` field
pub open spec fn node_name(t: SyntaxTree, bytes: Seq<u8>, i: int) -> Option<Seq<char>> {
    let ns = field_of(t, i, seq!['n', 'a', 'm', 'e']);
    match first_identifier(t, ns, 0) {
        Some(j) => Some(node_text(t, bytes, ns[j] as int)),
        None => None,
    }
}

/// The last of the first `k` macros named `n` that is still defined at the
/// end of the file
pub open spec fn live_define(ms: Seq<Macro>, n: Seq<char>, k: int) -> Option<int>
    decreases k,
{
    if k <= 0 {
        None
    } else if ms[k - 1].undefined_at is None && ms[k - 1].name@ == n {
        Some(k - 1)
    } else {
        live_define(ms, n, k - 1)
    }
}

/// The define named `n` records macro `j`: its name, its raw value and the
/// line of its value
pub open spec fn define_recorded(defs: SymbolMap<Define>, ms: Seq<Macro>, starts: Seq<usize>, n: Seq<char>, j: int) -> bool {
    defs.get_spec(n) matches Some(d) && d.declaration.name@ == n && d.value@ == ms[j].value@
        && d.declaration.documentation.ref_line == starts_upto(starts, ms[j].offset, starts.len() as int)
}

/// A visibility's words in the normalized order `public static stock`
pub open spec fn visibility_words(ws: Seq<Seq<char>>) -> Seq<char> {
    let a = if ws.contains(seq!['p', 'u', 'b', 'l', 'i', 'c']) {
        seq!['p', 'u', 'b', 'l', 'i', 'c']
    } else {
        Seq::<char>::empty()
    };
    let b = if ws.contains(seq!['s', 't', 'a', 't', 'i', 'c']) {
        if a.len() > 0 { a + seq![' '] + seq!['s', 't', 'a', 't', 'i', 'c'] } else { seq!['s', 't', 'a', 't', 'i', 'c'] }
    } else {
        a
    };
    if ws.contains(seq!['s', 't', 'o', 'c', 'k']) {
        if b.len() > 0 { b + seq![' '] + seq!['s', 't', 'o', 'c', 'k'] } else { seq!['s', 't', 'o', 'c', 'k'] }
    } else {
        b
    }
}

/// The kind of a function declaration: the text of its `kind` field (such
/// as `native` or `forward`), else its visibility words in normalized order,
/// else `function`
pub open spec fn function_kind_of(t: SyntaxTree, bytes: Seq<u8>, node: int) -> Seq<char> {
    let ks = field_of(t, node, seq!['k', 'i', 'n', 'd']);
    let vs = field_of(t, node, seq!['v', 'i', 's', 'i', 'b', 'i', 'l', 'i', 't', 'y']);
    if ks.len() > 0 {
        node_text(t, bytes, ks[0] as int)
    } else if vs.len() > 0 {
        visibility_words(words(node_text(t, bytes, vs[0] as int)))
    } else {
        seq!['f', 'u', 'n', 'c', 't', 'i', 'o', 'n']
    }
}

/// Whether some word of `ws` is `w`, by the words' characters
proof fn lemma_words_has(ws: Seq<Vec<char>>, w: Seq<char>)
    ensures
        ws.map_values(|x: Vec<char>| x@).contains(w) == (exists|j: int| 0 <= j < ws.len() && (#[trigger] ws[j])@ == w),
{
    let mv = ws.map_values(|x: Vec<char>| x@);
    if mv.contains(w) {
        let j = choose|j: int| 0 <= j < mv.len() && mv[j] == w;
        assert(ws[j]@ == w);
    }
    if exists|j: int| 0 <= j < ws.len() && (#[trigger] ws[j])@ == w {
        let j = choose|j: int| 0 <= j < ws.len() && (#[trigger] ws[j])@ == w;
        assert(mv[j] == w);
    }
}

/// Position, among the children of `i` from the `k`-th, of the first that
/// holds a dimension's size: named, neither a packing nor a comment
pub open spec fn dim_child(t: SyntaxTree, i: int, k: int) -> Option<int>
    decreases t.children@[i]@.len() - k,
{
    if k < 0 || k >= t.children@[i]@.len() {
        None
    } else {
        let c = t.children@[i]@[k] as int;
        if t.nodes@[c].named && t.nodes@[c].kind@ != seq!['d', 'i', 'm', 'e', 'n', 's', 'i', 'o', 'n', '_', 'p', 'a', 'c',
            'k', 'i', 'n', 'g'] && t.nodes@[c].kind@ != seq!['c', 'o', 'm', 'm', 'e', 'n', 't'] {
            Some(k)
        } else {
            dim_child(t, i, k + 1)
        }
    }
}

/// A dimension as docparse printed it: `[size]` for a fixed dimension whose
/// rendered size has no space, `[]` otherwise
pub open spec fn dim_of(t: SyntaxTree, bytes: Seq<u8>, pp: Preprocessed, i: int) -> Seq<char> {
    if t.nodes@[i].kind@ == seq!['f', 'i', 'x', 'e', 'd', '_', 'd', 'i', 'm', 'e', 'n', 's', 'i', 'o', 'n'] {
        match dim_child(t, i, 0) {
            Some(j) => {
                let c = t.children@[i]@[j] as int;
                let size = render_source(pp, t.nodes@[c].start_byte, 0, node_text(t, bytes, c));
                if size.contains(' ') {
                    seq!['[', ']']
                } else {
                    seq!['['] + size + seq![']']
                }
            },
            None => seq!['[', ']'],
        }
    } else {
        seq!['[', ']']
    }
}

/// Position, among the children of `i` from the `k`-th, of the first that is
/// not a `:`
pub open spec fn tag_child(t: SyntaxTree, i: int, k: int) -> Option<int>
    decreases t.children@[i]@.len() - k,
{
    if k < 0 || k >= t.children@[i]@.len() {
        None
    } else if t.nodes@[t.children@[i]@[k] as int].kind@ != seq![':'] {
        Some(k)
    } else {
        tag_child(t, i, k + 1)
    }
}

/// Position, among the children of `i` from the `k`-th, of the first `type`
pub open spec fn type_child(t: SyntaxTree, i: int, k: int) -> Option<int>
    decreases t.children@[i]@.len() - k,
{
    if k < 0 || k >= t.children@[i]@.len() {
        None
    } else if t.nodes@[t.children@[i]@[k] as int].kind@ == seq!['t', 'y', 'p', 'e'] {
        Some(k)
    } else {
        type_child(t, i, k + 1)
    }
}

/// The base type name of a `type`, `old_type` or `builtin_type` node: an
/// old tag's type (`any` for several tags, `int` for none), the element type
/// of an array type, or else the node's trimmed text (`int` when empty)
pub open spec fn base_type_of(t: SyntaxTree, bytes: Seq<u8>, i: int) -> Seq<char>
    decreases t.nodes@.len() - i,
{
    if !(0 <= i < t.nodes@.len() && i < t.children@.len()) {
        Seq::empty()
    } else if t.nodes@[i].kind@ == seq!['o', 'l', 'd', '_', 't', 'y', 'p', 'e'] {
        match tag_child(t, i, 0) {
            Some(j) => {
                let c = t.children@[i]@[j] as int;
                if t.nodes@[c].kind@ == seq!['m', 'u', 'l', 't', 'i', '_', 't', 'a', 'g'] {
                    seq!['a', 'n', 'y']
                } else {
                    tag_type(trim(node_text(t, bytes, c)))
                }
            },
            None => seq!['i', 'n', 't'],
        }
    } else if t.nodes@[i].kind@ == seq!['a', 'r', 'r', 'a', 'y', '_', 't', 'y', 'p', 'e'] {
        match type_child(t, i, 0) {
            Some(j) => {
                let c = t.children@[i]@[j] as int;
                if i < c < t.nodes@.len() {
                    base_type_of(t, bytes, c)
                } else {
                    Seq::empty()
                }
            },
            None => Seq::empty(),
        }
    } else if trim(node_text(t, bytes, i)).len() == 0 {
        seq!['i', 'n', 't']
    } else {
        trim(node_text(t, bytes, i))
    }
}

/// Whether a node kind is a dimension
pub open spec fn dimension_kind(k: Seq<char>) -> bool {
    k == seq!['d', 'i', 'm', 'e', 'n', 's', 'i', 'o', 'n'] || k == seq!['f', 'i', 'x', 'e', 'd', '_', 'd', 'i', 'm', 'e', 'n',
        's', 'i', 'o', 'n']
}

/// The dimensions among the first `m` children of array type `n`
pub open spec fn array_dims(t: SyntaxTree, bytes: Seq<u8>, pp: Preprocessed, n: int, m: int) -> Seq<Seq<char>>
    decreases m,
{
    if m <= 0 {
        Seq::empty()
    } else {
        let rest = array_dims(t, bytes, pp, n, m - 1);
        let c = t.children@[n]@[m - 1] as int;
        if dimension_kind(t.nodes@[c].kind@) {
            rest.push(dim_of(t, bytes, pp, c))
        } else {
            rest
        }
    }
}

/// The base type, the dimensions before the name and whether it is by
/// reference, gathered from the first `k` of the type nodes `nodes`: a
/// type node sets the base, an array type sets it and adds its dimensions,
/// a dimension is added and `&` marks a reference
pub open spec fn type_parts_upto(t: SyntaxTree, bytes: Seq<u8>, pp: Preprocessed, nodes: Seq<usize>, k: int) -> (
    Seq<char>,
    Seq<Seq<char>>,
    bool,
)
    decreases k,
{
    if k <= 0 {
        (seq!['i', 'n', 't'], Seq::empty(), false)
    } else {
        let (b, d, r) = type_parts_upto(t, bytes, pp, nodes, k - 1);
        let n = nodes[k - 1] as int;
        let kind = t.nodes@[n].kind@;
        if kind == seq!['t', 'y', 'p', 'e'] || kind == seq!['o', 'l', 'd', '_', 't', 'y', 'p', 'e'] || kind == seq![
            'b',
            'u',
            'i',
            'l',
            't',
            'i',
            'n',
            '_',
            't',
            'y',
            'p',
            'e',
        ] {
            (base_type_of(t, bytes, n), d, r)
        } else if kind == seq!['a', 'r', 'r', 'a', 'y', '_', 't', 'y', 'p', 'e'] {
            (base_type_of(t, bytes, n), d + array_dims(t, bytes, pp, n, t.children@[n]@.len() as int), r)
        } else if dimension_kind(kind) {
            (b, d.push(dim_of(t, bytes, pp, n)), r)
        } else if kind == seq!['&'] {
            (b, d, true)
        } else {
            (b, d, r)
        }
    }
}

/// The type text of gathered type parts without `const` or dimensions after
/// the name: base, dimensions, then `&` for a reference
pub open spec fn parts_type(p: (Seq<char>, Seq<Seq<char>>, bool)) -> Seq<char> {
    p.0 + concat(p.1) + amp(p.2)
}

/// Whether a function definition's body gives a value: the body's bytes of
/// the source hold `return <value>;`
pub open spec fn body_gives_value(t: SyntaxTree, src: Seq<u8>, node: int) -> bool {
    let bs = field_of(t, node, seq!['b', 'o', 'd', 'y']);
    bs.len() > 0 && {
        let b = bs[0] as int;
        let text = utf8_lossy(src.subrange(t.nodes@[b].start_byte as int, t.nodes@[b].end_byte as int));
        &&& t.nodes@[b].start_byte <= t.nodes@[b].end_byte <= src.len()
        &&& exists|p: int| 0 <= p < text.len() && #[trigger] returns_at(text, p)
    }
}

/// A function's return type: its `returnType` field's type or, without one,
/// `void` for a definition whose body gives no value and `int` otherwise
pub open spec fn return_type_of(t: SyntaxTree, bytes: Seq<u8>, src: Seq<u8>, pp: Preprocessed, node: int) -> Seq<char> {
    let rs = field_of(t, node, seq!['r', 'e', 't', 'u', 'r', 'n', 'T', 'y', 'p', 'e']);
    if rs.len() == 0 {
        let def = t.nodes@[node].kind@ == seq!['f', 'u', 'n', 'c', 't', 'i', 'o', 'n', '_', 'd', 'e', 'f', 'i', 'n', 'i',
            't', 'i', 'o', 'n'];
        if def && !body_gives_value(t, src, node) {
            seq!['v', 'o', 'i', 'd']
        } else {
            seq!['i', 'n', 't']
        }
    } else {
        parts_type(type_parts_upto(t, bytes, pp, rs, rs.len() as int))
    }
}

/// The kind of a `const` qualifier
pub open spec fn storage_kind() -> Seq<char> {
    seq!['v', 'a', 'r', 'i', 'a', 'b', 'l', 'e', '_', 's', 't', 'o', 'r', 'a', 'g', 'e', '_', 'c', 'l', 'a', 's', 's']
}

/// What the first `k` children of a parameter declaration give: whether it
/// is `const`, whether by reference, the dimensions after its name, its
/// name, and whether the name was seen
pub open spec fn param_scan(t: SyntaxTree, bytes: Seq<u8>, pp: Preprocessed, node: int, k: int, by_ref0: bool) -> (
    bool,
    bool,
    Seq<Seq<char>>,
    Seq<char>,
    bool,
)
    decreases k,
{
    if k <= 0 {
        (false, by_ref0, Seq::empty(), Seq::empty(), false)
    } else {
        let (is_const, by_ref, post, name, seen) = param_scan(t, bytes, pp, node, k - 1, by_ref0);
        let c = t.children@[node]@[k - 1] as int;
        let kind = t.nodes@[c].kind@;
        let (is_const2, by_ref2, post2) = if kind == storage_kind() {
            (true, by_ref, post)
        } else if kind == seq!['&'] {
            (is_const, true, post)
        } else if seen && dimension_kind(kind) {
            (is_const, by_ref, post.push(dim_of(t, bytes, pp, c)))
        } else {
            (is_const, by_ref, post)
        };
        if fills(t, c, seq!['n', 'a', 'm', 'e']) {
            (is_const2, by_ref2, post2, node_text(t, bytes, c), true)
        } else {
            (is_const2, by_ref2, post2, name, seen)
        }
    }
}

/// The argument a parameter node declares, as (type, name, declaration,
/// default): for a declaration, its type parts (dimensions after the name of
/// an old style declaration that are all `[]` move before it) and its default
/// rendered; for a rest parameter, its type followed by `...`, named `...`;
/// nothing for other nodes
pub open spec fn parameter_of(t: SyntaxTree, bytes: Seq<u8>, pp: Preprocessed, node: int) -> Option<
    (Seq<char>, Seq<char>, Seq<char>, Option<Seq<char>>),
> {
    let kind = t.nodes@[node].kind@;
    let types = field_of(t, node, seq!['t', 'y', 'p', 'e']);
    let (base, pre, by_ref0) = type_parts_upto(t, bytes, pp, types, types.len() as int);
    if kind == seq!['p', 'a', 'r', 'a', 'm', 'e', 't', 'e', 'r', '_', 'd', 'e', 'c', 'l', 'a', 'r', 'a', 't', 'i', 'o', 'n'] {
        let (is_const, by_ref, post, name, seen) = param_scan(t, bytes, pp, node, t.children@[node]@.len() as int, by_ref0);
        let ds = field_of(t, node, seq!['d', 'e', 'f', 'a', 'u', 'l', 't', 'V', 'a', 'l', 'u', 'e']);
        let default = if ds.len() > 0 {
            Some(render_source(pp, t.nodes@[ds[0] as int].start_byte, 0, node_text(t, bytes, ds[0] as int)))
        } else {
            None
        };
        let old_style = types.len() == 0 || exists|q: int| 0 <= q < types.len() && t.nodes@[types[q] as int].kind@ == seq![
            'o',
            'l',
            'd',
            '_',
            't',
            'y',
            'p',
            'e',
        ];
        let all_open = forall|q: int| 0 <= q < post.len() ==> #[trigger] post[q] == seq!['[', ']'];
        let (pre2, post2) = if old_style && all_open { (pre + post, Seq::<Seq<char>>::empty()) } else { (pre, post) };
        Some((
            const_prefix(is_const) + base + concat(pre2 + post2) + amp(by_ref),
            name,
            const_prefix(is_const) + base + concat(pre2) + amp(by_ref) + seq![' '] + name + concat(post2),
            default,
        ))
    } else if kind == seq!['r', 'e', 's', 't', '_', 'p', 'a', 'r', 'a', 'm', 'e', 't', 'e', 'r'] {
        let is_const = exists|q: int| 0 <= q < t.children@[node]@.len() && t.nodes@[t.children@[node]@[q] as int].kind@
            == storage_kind();
        let ty = const_prefix(is_const) + base + concat(pre) + amp(by_ref0) + seq!['.', '.', '.'];
        Some((ty, seq!['.', '.', '.'], ty, None))
    } else {
        None
    }
}

/// An argument as (type, name, declaration, default)
pub open spec fn param_view(a: Argument) -> (Seq<char>, Seq<char>, Seq<char>, Option<Seq<char>>) {
    (a.ty@, a.name@, a.decl@, crate::chronicle::opt_text(a.default))
}

/// The arguments the first `k` children of `node` declare, in order
pub open spec fn params_upto(t: SyntaxTree, bytes: Seq<u8>, pp: Preprocessed, node: int, k: int) -> Seq<
    (Seq<char>, Seq<char>, Seq<char>, Option<Seq<char>>),
>
    decreases k,
{
    if k <= 0 {
        Seq::empty()
    } else {
        let prev = params_upto(t, bytes, pp, node, k - 1);
        match parameter_of(t, bytes, pp, t.children@[node]@[k - 1] as int) {
            Some(p) => prev.push(p),
            None => prev,
        }
    }
}

/// The arguments a parameter list declares; none without a list
pub open spec fn parameters_of(t: SyntaxTree, bytes: Seq<u8>, pp: Preprocessed, node: Option<usize>) -> Seq<
    (Seq<char>, Seq<char>, Seq<char>, Option<Seq<char>>),
> {
    match node {
        Some(n) => params_upto(t, bytes, pp, n as int, t.children@[n as int]@.len() as int),
        None => Seq::empty(),
    }
}

/// The arguments after the first: an alias drops the `this` argument
pub open spec fn tail_args(s: Seq<(Seq<char>, Seq<char>, Seq<char>, Option<Seq<char>>)>) -> Seq<(Seq<char>, Seq<char>, Seq<char>, Option<Seq<char>>)> {
    if s.len() == 0 {
        s
    } else {
        s.subrange(1, s.len() as int)
    }
}

/// A methodmap member's kind, return type and arguments, by the member's
/// node kind: methods and natives have their own, constructors return the
/// methodmap, destructors return `void`, and an alias borrows the aliased
/// function of `funcs` without its first argument
pub open spec fn method_body(
    t: SyntaxTree,
    bytes: Seq<u8>,
    src: Seq<u8>,
    pp: Preprocessed,
    funcs: SymbolMap<Function>,
    mm_name: Seq<char>,
    m: int,
) -> Option<(Seq<char>, Seq<char>, Seq<(Seq<char>, Seq<char>, Seq<char>, Option<Seq<char>>)>)> {
    let kind = t.nodes@[m].kind@;
    let native = seq!['n', 'a', 't', 'i', 'v', 'e'];
    let stock = seq!['s', 't', 'o', 'c', 'k'];
    let void = seq!['v', 'o', 'i', 'd'];
    let params = parameters_of(t, bytes, pp, first_field(t, m, seq!['p', 'a', 'r', 'a', 'm', 'e', 't', 'e', 'r', 's']));
    if kind == seq!['m', 'e', 't', 'h', 'o', 'd', 'm', 'a', 'p', '_', 'n', 'a', 't', 'i', 'v', 'e'] {
        Some((native, return_type_of(t, bytes, src, pp, m), params))
    } else if kind == seq!['m', 'e', 't', 'h', 'o', 'd', 'm', 'a', 'p', '_', 'm', 'e', 't', 'h', 'o', 'd'] {
        Some((stock, return_type_of(t, bytes, src, pp, m), params))
    } else if kind == seq!['m', 'e', 't', 'h', 'o', 'd', 'm', 'a', 'p', '_', 'n', 'a', 't', 'i', 'v', 'e', '_', 'c', 'o', 'n', 's', 't', 'r', 'u', 'c', 't', 'o', 'r'] {
        Some((native, mm_name, params))
    } else if kind == seq!['m', 'e', 't', 'h', 'o', 'd', 'm', 'a', 'p', '_', 'm', 'e', 't', 'h', 'o', 'd', '_', 'c', 'o', 'n', 's', 't', 'r', 'u', 'c', 't', 'o', 'r'] {
        Some((stock, mm_name, params))
    } else if kind == seq!['m', 'e', 't', 'h', 'o', 'd', 'm', 'a', 'p', '_', 'n', 'a', 't', 'i', 'v', 'e', '_', 'd', 'e', 's', 't', 'r', 'u', 'c', 't', 'o', 'r'] {
        Some((native, void, Seq::empty()))
    } else if kind == seq!['m', 'e', 't', 'h', 'o', 'd', 'm', 'a', 'p', '_', 'm', 'e', 't', 'h', 'o', 'd', '_', 'd', 'e', 's', 't', 'r', 'u', 'c', 't', 'o', 'r'] {
        Some((stock, void, Seq::empty()))
    } else if kind == seq!['m', 'e', 't', 'h', 'o', 'd', 'm', 'a', 'p', '_', 'a', 'l', 'i', 'a', 's'] {
        match first_field(t, m, seq!['f', 'u', 'n', 'c', 't', 'i', 'o', 'n']) {
            Some(target) => match funcs.get_spec(node_text(t, bytes, target as int)) {
                Some(f) => Some((native, f.return_type@, tail_args(f.arguments@.map_values(|a: Argument| param_view(a))))),
                None => Some((native, void, Seq::empty())),
            },
            None => Some((native, void, Seq::empty())),
        }
    } else {
        None
    }
}

/// The key a methodmap member is recorded under (`~` before a destructor's
/// name) and what it records; nothing for a nameless member
pub open spec fn method_entry(
    t: SyntaxTree,
    bytes: Seq<u8>,
    src: Seq<u8>,
    pp: Preprocessed,
    funcs: SymbolMap<Function>,
    mm_name: Seq<char>,
    m: int,
) -> Option<(Seq<char>, (Seq<char>, Seq<char>, Seq<(Seq<char>, Seq<char>, Seq<char>, Option<Seq<char>>)>))> {
    match node_name(t, bytes, m) {
        Some(n) => match method_body(t, bytes, src, pp, funcs, mm_name, m) {
            Some(b) => {
                let kind = t.nodes@[m].kind@;
                let d = seq!['d', 'e', 's', 't', 'r', 'u', 'c', 't', 'o', 'r'];
                let destructor = d.len() <= kind.len() && has_at(kind, kind.len() - d.len(), d);
                Some((if destructor { seq!['~'] + n } else { n }, b))
            },
            None => None,
        },
        None => None,
    }
}

/// Which member each method key and each property name of a methodmap
/// comes from, after its first `k` members: a later member replaces an
/// earlier one of the same key
pub open spec fn member_slots(
    t: SyntaxTree,
    bytes: Seq<u8>,
    src: Seq<u8>,
    pp: Preprocessed,
    funcs: SymbolMap<Function>,
    mm_name: Seq<char>,
    node: int,
    k: int,
) -> (Map<Seq<char>, int>, Map<Seq<char>, int>)
    decreases k,
{
    if k <= 0 {
        (Map::empty(), Map::empty())
    } else {
        let (ms, ps) = member_slots(t, bytes, src, pp, funcs, mm_name, node, k - 1);
        let m = t.children@[node]@[k - 1] as int;
        if t.nodes@[m].kind@ == seq!['m', 'e', 't', 'h', 'o', 'd', 'm', 'a', 'p', '_', 'p', 'r', 'o', 'p', 'e', 'r', 't', 'y'] {
            match node_name(t, bytes, m) {
                Some(pn) => (ms, ps.insert(pn, m)),
                None => (ms, ps),
            }
        } else {
            match method_entry(t, bytes, src, pp, funcs, mm_name, m) {
                Some((key, _)) => (ms.insert(key, m), ps),
                None => (ms, ps),
            }
        }
    }
}

/// A function declaration or definition
pub open spec fn is_function_node(t: SyntaxTree, c: int) -> bool {
    t.nodes@[c].kind@ == seq!['f', 'u', 'n', 'c', 't', 'i', 'o', 'n', '_', 'd', 'e', 'c', 'l', 'a', 'r', 'a', 't', 'i', 'o', 'n'] || t.nodes@[c].kind@ == seq!['f', 'u', 'n', 'c', 't', 'i', 'o', 'n', '_', 'd', 'e', 'f', 'i', 'n', 'i', 't', 'i', 'o', 'n']
}

/// The `j`th top level declaration is a named function that no other
/// function among the first `k` top level declarations after it renames
pub open spec fn function_last(t: SyntaxTree, bytes: Seq<u8>, j: int, k: int) -> bool {
    let c = t.children@[0]@[j] as int;
    &&& is_function_node(t, c)
    &&& node_name(t, bytes, c) is Some
    &&& forall|j2: int|
        j < j2 < k ==> !(is_function_node(t, #[trigger] t.children@[0]@[j2] as int) && node_name(
            t,
            bytes,
            t.children@[0]@[j2] as int,
        ) == node_name(t, bytes, c))
}

/// Where the lines among the first `i` bytes start: at 0 and after each
/// line feed
pub open spec fn line_starts_upto(bytes: Seq<u8>, i: int) -> Seq<usize>
    decreases i,
{
    if i <= 0 {
        seq![0usize]
    } else if bytes[i - 1] == 10 {
        line_starts_upto(bytes, i - 1).push(i as usize)
    } else {
        line_starts_upto(bytes, i - 1)
    }
}

/// The first child of `node`, from the `k`th, of the given kind
pub open spec fn first_kind_from(t: SyntaxTree, node: int, kind: Seq<char>, k: int) -> Option<usize>
    decreases t.children@[node]@.len() - k,
{
    if k < 0 || k >= t.children@[node]@.len() {
        None
    } else if t.nodes@[t.children@[node]@[k] as int].kind@ == kind {
        Some(t.children@[node]@[k])
    } else {
        first_kind_from(t, node, kind, k + 1)
    }
}

/// The type a typedef names: the signature of its `typedef_expression`, or
/// else its aliased type without the dimensions after it
pub open spec fn typedef_type_of(t: SyntaxTree, bytes: Seq<u8>, src: Seq<u8>, pp: Preprocessed, node: int) -> Seq<char> {
    match first_kind_from(t, node, seq!['t', 'y', 'p', 'e', 'd', 'e', 'f', '_', 'e', 'x', 'p', 'r', 'e', 's', 's', 'i', 'o', 'n'], 0) {
        Some(e) => signature_of(
            return_type_of(t, bytes, src, pp, e as int),
            parameters_of(t, bytes, pp, first_field(t, e as int, seq!['p', 'a', 'r', 'a', 'm', 'e', 't', 'e', 'r', 's'])),
        ),
        None => {
            let types = field_of(t, node, seq!['t', 'y', 'p', 'e']);
            parts_type(type_parts_upto(t, bytes, pp, types, types.len() as int))
        },
    }
}

/// A parsed signature is what `parse_type_signature` gives for `ty`
pub open spec fn signature_parsed(ty: Seq<char>, p: Option<TypeSignature>) -> bool {
    match p {
        Some(ts) => crate::schema::signature::signature_of(ty) == Some(
            (ts.return_type@, crate::schema::signature::arguments_view(ts.arguments@)),
        ) && forall|i: int| 0 <= i < ts.arguments@.len() ==> (#[trigger] ts.arguments@[i]).default is None,
        None => crate::schema::signature::signature_of(ty) is None,
    }
}

/// The value of an enum entry: the last named node of its `value` field,
/// rendered, among the first `k`
pub open spec fn entry_value(t: SyntaxTree, bytes: Seq<u8>, pp: Preprocessed, vs: Seq<usize>, k: int) -> Option<Seq<char>>
    decreases k,
{
    if k <= 0 {
        None
    } else if t.nodes@[vs[k - 1] as int].named {
        Some(render_source(pp, t.nodes@[vs[k - 1] as int].start_byte, 0, node_text(t, bytes, vs[k - 1] as int)))
    } else {
        entry_value(t, bytes, pp, vs, k - 1)
    }
}

/// The named `enum_entry` nodes among the first `k` children of `list`, in
/// order
pub open spec fn entry_nodes(t: SyntaxTree, bytes: Seq<u8>, list: int, k: int) -> Seq<int>
    decreases k,
{
    if k <= 0 {
        Seq::empty()
    } else {
        let e = t.children@[list]@[k - 1] as int;
        if t.nodes@[e].kind@ == seq!['e', 'n', 'u', 'm', '_', 'e', 'n', 't', 'r', 'y'] && node_name(t, bytes, e) is Some {
            entry_nodes(t, bytes, list, k - 1).push(e)
        } else {
            entry_nodes(t, bytes, list, k - 1)
        }
    }
}

/// Which node each name comes from when the nodes `ns` are recorded in
/// order, a later one replacing an earlier one of the same name
pub open spec fn named_slots(t: SyntaxTree, bytes: Seq<u8>, ns: Seq<int>) -> Map<Seq<char>, int>
    decreases ns.len(),
{
    if ns.len() == 0 {
        Map::empty()
    } else {
        named_slots(t, bytes, ns.drop_last()).insert(node_name(t, bytes, ns.last())->0, ns.last())
    }
}

/// The entry nodes of the anonymous enums among the first `k` top level
/// declarations, in order
pub open spec fn anon_entries(t: SyntaxTree, bytes: Seq<u8>, k: int) -> Seq<int>
    decreases k,
{
    if k <= 0 {
        Seq::empty()
    } else {
        let c = t.children@[0]@[k - 1] as int;
        anon_entries(t, bytes, k - 1) + if t.nodes@[c].kind@ == seq!['e', 'n', 'u', 'm'] && node_name(t, bytes, c) is None {
            enum_entries(t, bytes, c)
        } else {
            Seq::empty()
        }
    }
}

proof fn lemma_named_slots_concat(t: SyntaxTree, bytes: Seq<u8>, a: Seq<int>, b: Seq<int>)
    ensures
        named_slots(t, bytes, a + b) == named_slots(t, bytes, a).union_prefer_right(named_slots(t, bytes, b)),
    decreases b.len(),
{
    if b.len() == 0 {
        assert(a + b =~= a);
        assert(named_slots(t, bytes, a).union_prefer_right(named_slots(t, bytes, b)) =~= named_slots(t, bytes, a));
    } else {
        lemma_named_slots_concat(t, bytes, a, b.drop_last());
        assert((a + b).drop_last() =~= a + b.drop_last());
        assert((a + b).last() == b.last());
        assert(named_slots(t, bytes, a + b) =~= named_slots(t, bytes, a).union_prefer_right(named_slots(t, bytes, b)));
    }
}

/// The entries of an enum node: those of its `entries` field, if any
pub open spec fn enum_entries(t: SyntaxTree, bytes: Seq<u8>, node: int) -> Seq<int> {
    match first_field(t, node, seq!['e', 'n', 't', 'r', 'i', 'e', 's']) {
        Some(list) => entry_nodes(t, bytes, list as int, t.children@[list as int]@.len() as int),
        None => Seq::empty(),
    }
}

/// The dimensions of the `fixed_dimension` children among the first `k`
/// of a field node, in order
pub open spec fn fixed_dims(t: SyntaxTree, bytes: Seq<u8>, pp: Preprocessed, member: int, k: int) -> Seq<Seq<char>>
    decreases k,
{
    if k <= 0 {
        Seq::empty()
    } else {
        let c = t.children@[member]@[k - 1] as int;
        if t.nodes@[c].kind@ == seq!['f', 'i', 'x', 'e', 'd', '_', 'd', 'i', 'm', 'e', 'n', 's', 'i', 'o', 'n'] {
            fixed_dims(t, bytes, pp, member, k - 1).push(dim_of(t, bytes, pp, c))
        } else {
            fixed_dims(t, bytes, pp, member, k - 1)
        }
    }
}

/// The type of an enum struct field: its type, the dimensions after its
/// name following those of its type
pub open spec fn es_field_type(t: SyntaxTree, bytes: Seq<u8>, pp: Preprocessed, member: int) -> Seq<char> {
    let types = field_of(t, member, seq!['t', 'y', 'p', 'e']);
    let (b, pre, r) = type_parts_upto(t, bytes, pp, types, types.len() as int);
    b + concat(pre + fixed_dims(t, bytes, pp, member, t.children@[member]@.len() as int)) + amp(r)
}

/// The kinds of the fields of an old style `struct`
pub open spec fn is_struct_field_kind(k: Seq<char>) -> bool {
    k == seq!['s', 't', 'r', 'u', 'c', 't', '_', 'f', 'i', 'e', 'l', 'd'] || k == seq!['o', 'l', 'd', '_', 's', 't',
        'r', 'u', 'c', 't', '_', 'f', 'i', 'e', 'l', 'd']
}

/// The named field children of a `struct` among the first `k`, in order
pub open spec fn named_struct_fields(t: SyntaxTree, bytes: Seq<u8>, node: int, k: int) -> Seq<int>
    decreases k,
{
    if k <= 0 {
        Seq::empty()
    } else {
        let c = t.children@[node]@[k - 1] as int;
        if is_struct_field_kind(t.nodes@[c].kind@) && node_name(t, bytes, c) is Some {
            named_struct_fields(t, bytes, node, k - 1).push(c)
        } else {
            named_struct_fields(t, bytes, node, k - 1)
        }
    }
}

/// Over the first `k` children of a struct field: whether one is `const`,
/// the dimensions that follow its name, and whether the name was seen
pub open spec fn struct_field_scan(t: SyntaxTree, bytes: Seq<u8>, pp: Preprocessed, member: int, k: int) -> (bool, Seq<Seq<char>>, bool)
    decreases k,
{
    if k <= 0 {
        (false, Seq::empty(), false)
    } else {
        let (cst, dims, seen) = struct_field_scan(t, bytes, pp, member, k - 1);
        let c = t.children@[member]@[k - 1] as int;
        let kind = t.nodes@[c].kind@;
        let is_const = kind == seq!['c', 'o', 'n', 's', 't'];
        let is_dim = kind == seq!['d', 'i', 'm', 'e', 'n', 's', 'i', 'o', 'n'] || kind == seq!['f', 'i', 'x', 'e', 'd', '_',
            'd', 'i', 'm', 'e', 'n', 's', 'i', 'o', 'n'];
        (
            cst || is_const,
            if !is_const && seen && is_dim { dims.push(dim_of(t, bytes, pp, c)) } else { dims },
            seen || fills(t, c, seq!['n', 'a', 'm', 'e']),
        )
    }
}

/// The type of an old style struct field: `const` if it says so, its type,
/// and the dimensions after its name following those of its type
pub open spec fn struct_field_type(t: SyntaxTree, bytes: Seq<u8>, pp: Preprocessed, member: int) -> Seq<char> {
    let types = field_of(t, member, seq!['t', 'y', 'p', 'e']);
    let (b, pre, r) = type_parts_upto(t, bytes, pp, types, types.len() as int);
    let (cst, dims, _) = struct_field_scan(t, bytes, pp, member, t.children@[member]@.len() as int);
    const_prefix(cst) + b + concat(pre + dims) + amp(r)
}

/// The named children of `node` of the given kind among the first `k`, in
/// order
pub open spec fn named_of_kind(t: SyntaxTree, bytes: Seq<u8>, node: int, kind: Seq<char>, k: int) -> Seq<int>
    decreases k,
{
    if k <= 0 {
        Seq::empty()
    } else {
        let c = t.children@[node]@[k - 1] as int;
        if t.nodes@[c].kind@ == kind && node_name(t, bytes, c) is Some {
            named_of_kind(t, bytes, node, kind, k - 1).push(c)
        } else {
            named_of_kind(t, bytes, node, kind, k - 1)
        }
    }
}

pub open spec fn es_field_kind() -> Seq<char> {
    seq!['e', 'n', 'u', 'm', '_', 's', 't', 'r', 'u', 'c', 't', '_', 'f', 'i', 'e', 'l', 'd']
}

pub open spec fn es_method_kind() -> Seq<char> {
    seq!['e', 'n', 'u', 'm', '_', 's', 't', 'r', 'u', 'c', 't', '_', 'm', 'e', 't', 'h', 'o', 'd']
}

/// The kind of the children that give a typeset its types: the members of
/// a funcenum, the typedef expressions of a typeset
pub open spec fn typeset_member_kind(t: SyntaxTree, node: int) -> Seq<char> {
    if t.nodes@[node].kind@ == seq!['f', 'u', 'n', 'c', 'e', 'n', 'u', 'm'] {
        seq!['f', 'u', 'n', 'c', 'e', 'n', 'u', 'm', '_', 'm', 'e', 'm', 'b', 'e', 'r']
    } else {
        seq!['t', 'y', 'p', 'e', 'd', 'e', 'f', '_', 'e', 'x', 'p', 'r', 'e', 's', 's', 'i', 'o', 'n']
    }
}

/// The signatures of the member children among the first `k` of a typeset
/// or funcenum, with the line of each, in order
pub open spec fn typeset_sigs(t: SyntaxTree, bytes: Seq<u8>, src: Seq<u8>, pp: Preprocessed, node: int, k: int) -> Seq<(Seq<char>, usize)>
    decreases k,
{
    if k <= 0 {
        Seq::empty()
    } else {
        let c = t.children@[node]@[k - 1] as int;
        if t.nodes@[c].kind@ == typeset_member_kind(t, node) {
            typeset_sigs(t, bytes, src, pp, node, k - 1).push(
                (
                    signature_of(
                        return_type_of(t, bytes, src, pp, c),
                        parameters_of(t, bytes, pp, first_field(t, c, seq!['p', 'a', 'r', 'a', 'm', 'e', 't', 'e', 'r', 's'])),
                    ),
                    (t.nodes@[c].row + 1) as usize,
                ),
            )
        } else {
            typeset_sigs(t, bytes, src, pp, node, k - 1)
        }
    }
}

/// Which of `sigs` each signature is recorded from, a later one replacing
/// an earlier equal one
pub open spec fn sig_slots(sigs: Seq<(Seq<char>, usize)>) -> Map<Seq<char>, int>
    decreases sigs.len(),
{
    if sigs.len() == 0 {
        Map::empty()
    } else {
        sig_slots(sigs.drop_last()).insert(sigs.last().0, sigs.len() - 1)
    }
}

/// The `j`th top level declaration is a named enum that no other enum
/// among the first `k` top level declarations after it renames
pub open spec fn enum_last(t: SyntaxTree, bytes: Seq<u8>, j: int, k: int) -> bool {
    let c = t.children@[0]@[j] as int;
    &&& t.nodes@[c].kind@ == seq!['e', 'n', 'u', 'm']
    &&& node_name(t, bytes, c) is Some
    &&& forall|j2: int|
        j < j2 < k ==> !(t.nodes@[#[trigger] t.children@[0]@[j2] as int].kind@ == seq!['e', 'n', 'u', 'm'] && node_name(
            t,
            bytes,
            t.children@[0]@[j2] as int,
        ) == node_name(t, bytes, c))
}

/// A typedef or a functag
pub open spec fn is_typedef_node(t: SyntaxTree, c: int) -> bool {
    t.nodes@[c].kind@ == seq!['t', 'y', 'p', 'e', 'd', 'e', 'f'] || t.nodes@[c].kind@ == seq!['f', 'u', 'n', 'c', 't', 'a', 'g']
}

/// The type a typedef or functag node declares
pub open spec fn typedef_node_type(t: SyntaxTree, bytes: Seq<u8>, src: Seq<u8>, pp: Preprocessed, c: int) -> Seq<char> {
    if t.nodes@[c].kind@ == seq!['t', 'y', 'p', 'e', 'd', 'e', 'f'] {
        typedef_type_of(t, bytes, src, pp, c)
    } else {
        signature_of(return_type_of(t, bytes, src, pp, c), parameters_of(t, bytes, pp, first_field(t, c, seq!['p', 'a', 'r', 'a', 'm', 'e', 't', 'e', 'r', 's'])))
    }
}

/// The `j`th top level declaration is a named typedef or functag that no
/// other among the first `k` top level declarations after it renames
pub open spec fn typedef_last(t: SyntaxTree, bytes: Seq<u8>, j: int, k: int) -> bool {
    let c = t.children@[0]@[j] as int;
    &&& is_typedef_node(t, c)
    &&& node_name(t, bytes, c) is Some
    &&& forall|j2: int|
        j < j2 < k ==> !(is_typedef_node(t, #[trigger] t.children@[0]@[j2] as int) && node_name(
            t,
            bytes,
            t.children@[0]@[j2] as int,
        ) == node_name(t, bytes, c))
}

/// The `j`th top level declaration is a named methodmap that no other
/// methodmap among the first `k` top level declarations after it renames
pub open spec fn methodmap_last(t: SyntaxTree, bytes: Seq<u8>, j: int, k: int) -> bool {
    let c = t.children@[0]@[j] as int;
    &&& t.nodes@[c].kind@ == seq!['m', 'e', 't', 'h', 'o', 'd', 'm', 'a', 'p']
    &&& node_name(t, bytes, c) is Some
    &&& forall|j2: int|
        j < j2 < k ==> !(t.nodes@[#[trigger] t.children@[0]@[j2] as int].kind@ == seq!['m', 'e', 't', 'h', 'o', 'd', 'm', 'a', 'p'] && node_name(
            t,
            bytes,
            t.children@[0]@[j2] as int,
        ) == node_name(t, bytes, c))
}

/// The `j`th top level declaration is a named enum struct or legacy struct
/// that no enum struct or legacy struct among the first `k` after it renames
pub open spec fn enum_struct_last(t: SyntaxTree, bytes: Seq<u8>, j: int, k: int) -> bool {
    let c = t.children@[0]@[j] as int;
    &&& (t.nodes@[c].kind@ == seq!['e', 'n', 'u', 'm', '_', 's', 't', 'r', 'u', 'c', 't'] || t.nodes@[c].kind@ == seq!['s',
        't', 'r', 'u', 'c', 't'])
    &&& node_name(t, bytes, c) is Some
    &&& forall|j2: int|
        j < j2 < k ==> !((t.nodes@[#[trigger] t.children@[0]@[j2] as int].kind@ == seq!['e', 'n', 'u', 'm', '_', 's', 't', 'r', 'u', 'c', 't'] || t.nodes@[t.children@[0]@[j2] as int].kind@ == seq!['s', 't', 'r', 'u', 'c', 't']) && node_name(
            t,
            bytes,
            t.children@[0]@[j2] as int,
        ) == node_name(t, bytes, c))
}

/// The `j`th top level declaration is a named typeset or funcenum that no
/// typeset or funcenum among the first `k` after it renames
pub open spec fn typeset_last(t: SyntaxTree, bytes: Seq<u8>, j: int, k: int) -> bool {
    let c = t.children@[0]@[j] as int;
    &&& (t.nodes@[c].kind@ == seq!['t', 'y', 'p', 'e', 's', 'e', 't'] || t.nodes@[c].kind@ == seq!['f', 'u', 'n', 'c', 'e', 'n', 'u', 'm'])
    &&& node_name(t, bytes, c) is Some
    &&& forall|j2: int|
        j < j2 < k ==> !((t.nodes@[#[trigger] t.children@[0]@[j2] as int].kind@ == seq!['t', 'y', 'p', 'e', 's', 'e', 't'] || t.nodes@[t.children@[0]@[j2] as int].kind@ == seq!['f', 'u', 'n', 'c', 'e', 'n', 'u', 'm']) && node_name(
            t,
            bytes,
            t.children@[0]@[j2] as int,
        ) == node_name(t, bytes, c))
}

/// No symbol of `a` is missing from `b`
pub open spec fn strand_grows(a: Strand, b: Strand) -> bool {
    &&& forall|k: Seq<char>| #[trigger] a.functions.contains_spec(k) ==> b.functions.contains_spec(k)
    &&& forall|k: Seq<char>| #[trigger] a.methodmaps.contains_spec(k) ==> b.methodmaps.contains_spec(k)
    &&& forall|k: Seq<char>| #[trigger] a.enumstructs.contains_spec(k) ==> b.enumstructs.contains_spec(k)
    &&& forall|k: Seq<char>| #[trigger] a.constants.contains_spec(k) ==> b.constants.contains_spec(k)
    &&& forall|k: Seq<char>| #[trigger] a.defines.contains_spec(k) ==> b.defines.contains_spec(k)
    &&& forall|k: Seq<char>| #[trigger] a.enums.contains_spec(k) ==> b.enums.contains_spec(k)
    &&& forall|k: Seq<char>| #[trigger] a.typesets.contains_spec(k) ==> b.typesets.contains_spec(k)
    &&& forall|k: Seq<char>| #[trigger] a.typedefs.contains_spec(k) ==> b.typedefs.contains_spec(k)
}

/// Documentation stays once the strand only grows
pub proof fn lemma_documented_grows(t: SyntaxTree, bytes: Seq<u8>, c: int, a: Strand, b: Strand)
    requires
        documented(t, bytes, c, a),
        strand_grows(a, b),
    ensures
        documented(t, bytes, c, b),
{
    match node_name(t, bytes, c) {
        Some(n) => {
            assert(a.functions.contains_spec(n) ==> b.functions.contains_spec(n));
            assert(a.enums.contains_spec(n) ==> b.enums.contains_spec(n));
            assert(a.enumstructs.contains_spec(n) ==> b.enumstructs.contains_spec(n));
            assert(a.methodmaps.contains_spec(n) ==> b.methodmaps.contains_spec(n));
            assert(a.typedefs.contains_spec(n) ==> b.typedefs.contains_spec(n));
            assert(a.typesets.contains_spec(n) ==> b.typesets.contains_spec(n));
        },
        None => {},
    }
}

/// Whether the top level declaration `c` is documented in `s` under its
/// name: functions, enums, enum structs (and legacy structs), methodmaps,
/// typedefs (and functags) and typesets (and funcenums), each in its kind's
/// map; a declaration without a name is not documented
pub open spec fn documented(t: SyntaxTree, bytes: Seq<u8>, c: int, s: Strand) -> bool {
    let k = t.nodes@[c].kind@;
    match node_name(t, bytes, c) {
        None => true,
        Some(n) => {
            &&& (k == seq!['f', 'u', 'n', 'c', 't', 'i', 'o', 'n', '_', 'd', 'e', 'c', 'l', 'a', 'r', 'a', 't', 'i', 'o', 'n']
                || k == seq!['f', 'u', 'n', 'c', 't', 'i', 'o', 'n', '_', 'd', 'e', 'f', 'i', 'n', 'i', 't', 'i', 'o', 'n'])
                ==> s.functions.contains_spec(n)
            &&& k == seq!['e', 'n', 'u', 'm'] ==> s.enums.contains_spec(n)
            &&& (k == seq!['e', 'n', 'u', 'm', '_', 's', 't', 'r', 'u', 'c', 't'] || k == seq!['s', 't', 'r', 'u', 'c', 't'])
                ==> s.enumstructs.contains_spec(n)
            &&& k == seq!['m', 'e', 't', 'h', 'o', 'd', 'm', 'a', 'p'] ==> s.methodmaps.contains_spec(n)
            &&& (k == seq!['t', 'y', 'p', 'e', 'd', 'e', 'f'] || k == seq!['f', 'u', 'n', 'c', 't', 'a', 'g'])
                ==> s.typedefs.contains_spec(n)
            &&& (k == seq!['t', 'y', 'p', 'e', 's', 'e', 't'] || k == seq!['f', 'u', 'n', 'c', 'e', 'n', 'u', 'm'])
                ==> s.typesets.contains_spec(n)
        },
    }
}

fn kind_is(t: &SyntaxTree, i: usize, k: &[char]) -> (r: bool)
    requires
        i < t.nodes.len(),
    ensures
        r == (t.nodes@[i as int].kind@ == k@),
{
    let cs = chars_of(t.nodes[i].kind.as_str());
    chars_eq(cs.as_slice(), k)
}

fn kind_ends_with(t: &SyntaxTree, i: usize, k: &[char]) -> (r: bool)
    requires
        i < t.nodes.len(),
    ensures
        r == (k@.len() <= t.nodes@[i as int].kind@.len() && has_at(
            t.nodes@[i as int].kind@,
            t.nodes@[i as int].kind@.len() - k@.len(),
            k@,
        )),
{
    let cs = chars_of(t.nodes[i].kind.as_str());
    if cs.len() < k.len() {
        return false;
    }
    crate::text::chars_at(cs.as_slice(), cs.len() - k.len(), k)
}

fn field_is(t: &SyntaxTree, i: usize, name: &[char]) -> (r: bool)
    requires
        i < t.nodes.len(),
    ensures
        r == fills(*t, i as int, name@),
{
    match &t.nodes[i].field {
        Some(f) => {
            let cs = chars_of(f.as_str());
            chars_eq(cs.as_slice(), name)
        },
        None => false,
    }
}

/// The children of `i` filling field `name`
fn field_nodes(t: &SyntaxTree, i: usize, name: &[char]) -> (r: Vec<usize>)
    requires
        children_ok(t),
        i < t.nodes.len(),
    ensures
        forall|k: int| 0 <= k < r@.len() ==> i < #[trigger] r@[k] < t.nodes.len(),
        r@ == field_of(*t, i as int, name@),
{
    let cs = &t.children[i];
    let mut r: Vec<usize> = Vec::new();
    let mut k: usize = 0;
    while k < cs.len()
        invariant
            children_ok(t),
            i < t.nodes.len(),
            cs == &t.children@[i as int],
            k <= cs.len(),
            forall|j: int| 0 <= j < r@.len() ==> i < #[trigger] r@[j] < t.nodes.len(),
            r@ == field_children(*t, i as int, name@, k as int),
        decreases cs.len() - k,
    {
        let c = cs[k];
        assert(i < t.children@[i as int]@[k as int] < t.nodes@.len());
        if field_is(t, c, name) {
            r.push(c);
        }
        k = k + 1;
    }
    r
}

/// The first child of `i` filling field `name`
fn child_by_field(t: &SyntaxTree, i: usize, name: &[char]) -> (r: Option<usize>)
    requires
        children_ok(t),
        i < t.nodes.len(),
    ensures
        r matches Some(c) ==> i < c < t.nodes.len(),
        r == first_field(*t, i as int, name@),
{
    let f = field_nodes(t, i, name);
    if f.len() > 0 { Some(f[0]) } else { None }
}

fn line_of(t: &SyntaxTree, i: usize) -> (r: usize)
    requires
        children_ok(t),
        i < t.nodes.len(),
    ensures
        r == t.nodes@[i as int].row + 1,
{
    assert(t.nodes@[i as int].row < usize::MAX);
    t.nodes[i].row + 1
}

fn has(words: &Vec<Vec<char>>, w: &[char]) -> (r: bool)
    ensures
        r == (exists|j: int| 0 <= j < words@.len() && (#[trigger] words@[j])@ == w@),
{
    let mut k: usize = 0;
    while k < words.len()
        invariant
            k <= words.len(),
            forall|j: int| 0 <= j < k ==> (#[trigger] words@[j])@ != w@,
        decreases words.len() - k,
    {
        if chars_eq(words[k].as_slice(), w) {
            return true;
        }
        k = k + 1;
    }
    false
}

/// The words of the first `k` characters of `s` that a white space ended,
/// and the word still open after them
pub open spec fn words_upto(s: Seq<char>, k: int) -> (Seq<Seq<char>>, Seq<char>)
    decreases k,
{
    if k <= 0 {
        (Seq::empty(), Seq::empty())
    } else {
        let (done, cur) = words_upto(s, k - 1);
        if unicode_white_space(s[k - 1]) {
            if cur.len() > 0 {
                (done.push(cur), Seq::empty())
            } else {
                (done, cur)
            }
        } else {
            (done, cur.push(s[k - 1]))
        }
    }
}

/// The white space separated words of `s`, in order
pub open spec fn words(s: Seq<char>) -> Seq<Seq<char>> {
    let (done, cur) = words_upto(s, s.len() as int);
    if cur.len() > 0 {
        done.push(cur)
    } else {
        done
    }
}

/// The white space separated words of `s`
fn words_of(s: &Vec<char>) -> (r: Vec<Vec<char>>)
    ensures
        r@.map_values(|w: Vec<char>| w@) == words(s@),
{
    let mut r: Vec<Vec<char>> = Vec::new();
    let mut cur: Vec<char> = Vec::new();
    let mut k: usize = 0;
    while k < s.len()
        invariant
            k <= s.len(),
            (r@.map_values(|w: Vec<char>| w@), cur@) == words_upto(s@, k as int),
        decreases s.len() - k,
    {
        let ghost before = r@.map_values(|w: Vec<char>| w@);
        if char_is_whitespace(s[k]) {
            if cur.len() > 0 {
                r.push(cur);
                cur = Vec::new();
                assert(r@.map_values(|w: Vec<char>| w@) =~= before.push(r@[r@.len() - 1]@));
            }
        } else {
            cur.push(s[k]);
        }
        k = k + 1;
    }
    let ghost before = r@.map_values(|w: Vec<char>| w@);
    if cur.len() > 0 {
        r.push(cur);
        assert(r@.map_values(|w: Vec<char>| w@) =~= before.push(r@[r@.len() - 1]@));
    }
    r
}

fn to_string(cs: &Vec<char>) -> (r: String)
    ensures
        r@ == cs@,
{
    string_from_chars(cs.as_slice())
}

fn copy_chars(cs: &Vec<char>) -> (r: Vec<char>)
    ensures
        r@ == cs@,
{
    let mut r: Vec<char> = Vec::new();
    push_all(&mut r, cs.as_slice());
    r
}

fn copy_argument(a: &Argument) -> (r: Argument)
    ensures
        param_view(r) == param_view(*a),
{
    let default = match &a.default {
        Some(d) => Some(d.clone()),
        None => None,
    };
    Argument { ty: a.ty.clone(), name: a.name.clone(), decl: a.decl.clone(), default: default }
}

/// Extraction state: the sources, the comment blocks and the strand built
pub struct Extractor<'a> {
    /// Unprocessed source, used for comment text and define values
    pub source: &'a str,
    /// Preprocessed source that was handed to the parser
    pub text: &'a str,
    pub pp: &'a Preprocessed,
    pub comments: Comments,
    pub line_starts: Vec<usize>,
    pub strand: Strand,
}

impl<'a> Extractor<'a> {
    pub fn new(source: &'a str, pp: &'a Preprocessed) -> (e: Self)
        requires
            lines_fit(pp.items@),
        ensures
            e.source == source,
            e.text@ == pp.text@,
            e.pp == pp,
            (e.comments.front(), e.comments.tail()) == block_scan(pp.items@, 0, 0, Seq::empty(), Seq::empty()),
            e.line_starts@ == line_starts_upto(encode_utf8(source@), encode_utf8(source@).len() as int),
            strand_keyed(e.strand),
            e.strand.functions.keys().len() == 0,
            forall|k: Seq<char>| #[trigger] e.strand.defines.get_spec(k) is None,
            forall|k: Seq<char>| #[trigger] e.strand.constants.get_spec(k) is None,
    {
        let bytes = source.as_bytes();
        let mut line_starts: Vec<usize> = vec![0];
        let mut i: usize = 0;
        while i < bytes.len()
            invariant
                i <= bytes.len(),
                bytes@ == encode_utf8(source@),
                line_starts@ == line_starts_upto(bytes@, i as int),
            decreases bytes.len() - i,
        {
            if bytes[i] == 10 {
                line_starts.push(i + 1);
            }
            i = i + 1;
        }
        Extractor {
            source: source,
            text: pp.text.as_str(),
            pp: pp,
            comments: Comments::new(pp.items.as_slice()),
            line_starts: line_starts,
            strand: Strand::new(),
        }
    }

    /// The line holding byte `offset`: the number of line starts up to it
    fn line_of_offset(&self, offset: usize) -> (r: usize)
        ensures
            r <= self.line_starts.len(),
            r == starts_upto(self.line_starts@, offset, self.line_starts@.len() as int),
    {
        let mut k: usize = 0;
        let mut count: usize = 0;
        while k < self.line_starts.len()
            invariant
                k <= self.line_starts.len(),
                count <= k,
                count == starts_upto(self.line_starts@, offset, k as int),
            decreases self.line_starts.len() - k,
        {
            if self.line_starts[k] <= offset {
                count = count + 1;
            }
            k = k + 1;
        }
        count
    }

    /// The text of node `i` in the preprocessed source
    fn text_of(&self, t: &SyntaxTree, i: usize) -> (r: Vec<char>)
        requires
            tree_ok(t, self.text.len() as int),
            i < t.nodes.len(),
        ensures
            r@ == node_text(*t, encode_utf8(self.text@), i as int),
    {
        let bytes = self.text.as_bytes();
        let s = string_from_bytes(&bytes[t.nodes[i].start_byte..t.nodes[i].end_byte]);
        chars_of(s.as_str())
    }

    /// The documentation of a declaration on `line`: the comment found for
    /// it, its byte range and, where that range lies in the source, its
    /// parsed text
    /// What the documentation of a declaration on `line` is: the comment
    /// found for that line, its byte range and its parsed text
    pub open spec fn documents(&self, line: usize, d: Documentation) -> bool {
        &&& d.ref_line == line
        &&& d.metadata is None
        &&& match self.comments.find_spec(line) {
                Some(r) => {
                    &&& d.doc_start.0 == r.start as i64
                    &&& d.doc_end.0 == r.end as i64
                    &&& if r.start <= r.end <= encode_utf8(self.source@).len() {
                        d.docs matches Some(c) && (c.brief@, tags_view(c.tags@)) == doc_comment_of(
                            utf8_lossy(encode_utf8(self.source@).subrange(r.start as int, r.end as int)),
                        )
                    } else {
                        d.docs is None
                    }
                },
                None => d.doc_start.0 == 0 && d.doc_end.0 == 0 && d.docs is None,
            }
    }

    /// What a property member records: its name, documentation, type and
    /// accessors
    pub open spec fn property_holds(&self, t: SyntaxTree, node: int, name: Seq<char>, p: Property) -> bool {
        let bytes = encode_utf8(self.text@);
        &&& p.declaration.name@ == name
        &&& self.documents((t.nodes@[node].row + 1) as usize, p.declaration.documentation)
        &&& p.ty@ == parts_type(
            type_parts_upto(t, bytes, *self.pp, field_of(t, node, seq!['t', 'y', 'p', 'e']), field_of(t, node, seq!['t', 'y', 'p', 'e']).len() as int),
        )
        &&& (p.getter, p.setter) == accessors_in(t, node, t.children@[node]@.len() as int)
    }

    /// The line of a declaration's name, or of the declaration when it has
    /// no name field
    pub open spec fn name_line_of(t: SyntaxTree, node: int) -> nat {
        if field_of(t, node, seq!['n', 'a', 'm', 'e']).len() > 0 {
            (t.nodes@[field_of(t, node, seq!['n', 'a', 'm', 'e'])[0] as int].row + 1) as nat
        } else {
            (t.nodes@[node].row + 1) as nat
        }
    }

    /// What a function declaration or definition records under `name`: its
    /// documentation on the line of its name, its kind, return type and
    /// arguments
    pub open spec fn function_holds(&self, t: SyntaxTree, node: int, name: Seq<char>, f: Function) -> bool {
        let bytes = encode_utf8(self.text@);
        &&& f.declaration.name@ == name
        &&& self.documents(Self::name_line_of(t, node) as usize, f.declaration.documentation)
        &&& f.kind@ == function_kind_of(t, bytes, node)
        &&& f.return_type@ == return_type_of(t, bytes, encode_utf8(self.source@), *self.pp, node)
        &&& f.arguments@.map_values(|a: Argument| param_view(a)) == parameters_of(t, bytes, *self.pp, first_field(t, node, seq!['p', 'a', 'r', 'a', 'm', 'e', 't', 'e', 'r', 's']))
    }

    /// Every function that no later one renames, among the first `k` top
    /// level declarations, is recorded in `funcs` as its node gives it
    pub open spec fn functions_recorded(&self, t: SyntaxTree, funcs: SymbolMap<Function>, k: int) -> bool {
        let bytes = encode_utf8(self.text@);
        forall|j: int|
            0 <= j < k && #[trigger] function_last(t, bytes, j, k) ==> (funcs.get_spec(
                node_name(t, bytes, t.children@[0]@[j] as int)->0,
            ) matches Some(f) && self.function_holds(
                t,
                t.children@[0]@[j] as int,
                node_name(t, bytes, t.children@[0]@[j] as int)->0,
                f,
            ))
    }

    /// What a named enum node records under `name`: its documentation and its
    /// entries
    pub open spec fn enum_holds(&self, t: SyntaxTree, node: int, name: Seq<char>, en: Enumeration) -> bool {
        &&& en.declaration.name@ == name
        &&& self.documents((t.nodes@[node].row + 1) as usize, en.declaration.documentation)
        &&& self.entries_hold(t, enum_entries(t, encode_utf8(self.text@), node), en.entries)
    }

    /// Every named enum that no later one renames, among the first `k` top
    /// level declarations, is recorded in `enums` as its node gives it
    pub open spec fn enums_recorded(&self, t: SyntaxTree, enums: SymbolMap<Enumeration>, k: int) -> bool {
        let bytes = encode_utf8(self.text@);
        forall|j: int|
            0 <= j < k && #[trigger] enum_last(t, bytes, j, k) ==> (enums.get_spec(
                node_name(t, bytes, t.children@[0]@[j] as int)->0,
            ) matches Some(en) && self.enum_holds(
                t,
                t.children@[0]@[j] as int,
                node_name(t, bytes, t.children@[0]@[j] as int)->0,
                en,
            ))
    }

    /// Every named typedef or functag that no later one renames, among the
    /// first `k` top level declarations, is recorded in `tds` as its node
    /// gives it
    pub open spec fn typedefs_recorded(&self, t: SyntaxTree, tds: SymbolMap<TypeDefinition>, k: int) -> bool {
        let bytes = encode_utf8(self.text@);
        forall|j: int|
            0 <= j < k && #[trigger] typedef_last(t, bytes, j, k) ==> (tds.get_spec(
                node_name(t, bytes, t.children@[0]@[j] as int)->0,
            ) matches Some(td) && self.typedef_recorded(
                (t.nodes@[t.children@[0]@[j] as int].row + 1) as usize,
                node_name(t, bytes, t.children@[0]@[j] as int)->0,
                typedef_node_type(t, bytes, encode_utf8(self.source@), *self.pp, t.children@[0]@[j] as int),
                td,
            ))
    }

    /// What an enum struct node records under `name`: its documentation,
    /// fields and methods; an old style struct node records its fields and
    /// no method
    pub open spec fn enum_struct_holds(&self, t: SyntaxTree, node: int, name: Seq<char>, es: EnumStruct) -> bool {
        let bytes = encode_utf8(self.text@);
        &&& es.declaration.name@ == name
        &&& self.documents((t.nodes@[node].row + 1) as usize, es.declaration.documentation)
        &&& if t.nodes@[node].kind@ == seq!['s', 't', 'r', 'u', 'c', 't'] {
            &&& self.struct_fields_hold(t, named_struct_fields(t, bytes, node, t.children@[node]@.len() as int), es.fields)
            &&& self.es_methods_hold(t, Seq::empty(), es.methods)
        } else {
            &&& self.es_fields_hold(t, named_of_kind(t, bytes, node, es_field_kind(), t.children@[node]@.len() as int), es.fields)
            &&& self.es_methods_hold(t, named_of_kind(t, bytes, node, es_method_kind(), t.children@[node]@.len() as int), es.methods)
        }
    }

    /// What a typeset or funcenum node records under `name`: its
    /// documentation and the signatures of its members
    pub open spec fn typeset_holds(&self, t: SyntaxTree, node: int, name: Seq<char>, ts: TypeSet) -> bool {
        &&& ts.declaration.name@ == name
        &&& self.documents((t.nodes@[node].row + 1) as usize, ts.declaration.documentation)
        &&& self.types_hold(
            typeset_sigs(t, encode_utf8(self.text@), encode_utf8(self.source@), *self.pp, node, t.children@[node]@.len() as int),
            ts.types,
        )
    }

    /// The methodmap recorded for the `j`th top level declaration: as its
    /// node gives it, aliases read from a function map that records the
    /// functions before it
    pub open spec fn methodmap_at(&self, t: SyntaxTree, j: int, mm: MethodMap) -> bool {
        let bytes = encode_utf8(self.text@);
        exists|funcs: SymbolMap<Function>|
            #![trigger self.functions_recorded(t, funcs, j)]
            self.functions_recorded(t, funcs, j) && self.methodmap_holds(t, t.children@[0]@[j] as int, node_name(t, bytes, t.children@[0]@[j] as int)->0, funcs, mm)
    }

    /// Every named methodmap, enum struct and typeset that no later one
    /// renames, among the first `k` top level declarations, is recorded as
    /// its node gives it
    pub open spec fn members_recorded(&self, t: SyntaxTree, s: Strand, k: int) -> bool {
        let bytes = encode_utf8(self.text@);
        &&& forall|j: int|
            0 <= j < k && #[trigger] methodmap_last(t, bytes, j, k) ==> (s.methodmaps.get_spec(node_name(t, bytes, t.children@[0]@[j] as int)->0) matches Some(mm)
                && self.methodmap_at(t, j, mm))
        &&& forall|j: int|
            0 <= j < k && #[trigger] enum_struct_last(t, bytes, j, k) ==> (s.enumstructs.get_spec(node_name(t, bytes, t.children@[0]@[j] as int)->0) matches Some(es)
                && self.enum_struct_holds(t, t.children@[0]@[j] as int, node_name(t, bytes, t.children@[0]@[j] as int)->0, es))
        &&& forall|j: int|
            0 <= j < k && #[trigger] typeset_last(t, bytes, j, k) ==> (s.typesets.get_spec(node_name(t, bytes, t.children@[0]@[j] as int)->0) matches Some(ts)
                && self.typeset_holds(t, t.children@[0]@[j] as int, node_name(t, bytes, t.children@[0]@[j] as int)->0, ts))
    }

    /// The final strand holds those methodmaps and enum structs with their
    /// methods' arguments printed against some list of local type names,
    /// the typesets as recorded, and a define for every macro still defined
    /// at the end of the file
    pub open spec fn members_extracted(&self, t: SyntaxTree, s: Strand) -> bool {
        let bytes = encode_utf8(self.text@);
        let k = t.children@[0]@.len() as int;
        &&& forall|j: int|
            0 <= j < k && #[trigger] methodmap_last(t, bytes, j, k) ==> (s.methodmaps.get_spec(node_name(t, bytes, t.children@[0]@[j] as int)->0) matches Some(mm)
                && exists|mm0: MethodMap, local: Seq<Seq<char>>|
                #![trigger methodmap_fixed(mm0, mm, local)]
                self.methodmap_at(t, j, mm0) && methodmap_fixed(mm0, mm, local))
        &&& forall|j: int|
            0 <= j < k && #[trigger] enum_struct_last(t, bytes, j, k) ==> (s.enumstructs.get_spec(node_name(t, bytes, t.children@[0]@[j] as int)->0) matches Some(es)
                && exists|es0: EnumStruct, local: Seq<Seq<char>>|
                #![trigger enumstruct_fixed(es0, es, local)]
                self.enum_struct_holds(t, t.children@[0]@[j] as int, node_name(t, bytes, t.children@[0]@[j] as int)->0, es0) && enumstruct_fixed(es0, es, local))
        &&& forall|j: int|
            0 <= j < k && #[trigger] typeset_last(t, bytes, j, k) ==> (s.typesets.get_spec(node_name(t, bytes, t.children@[0]@[j] as int)->0) matches Some(ts)
                && self.typeset_holds(t, t.children@[0]@[j] as int, node_name(t, bytes, t.children@[0]@[j] as int)->0, ts))
        &&& forall|n: Seq<char>|
            #[trigger] live_define(self.pp.macros@, n, self.pp.macros@.len() as int) matches Some(j) ==> define_recorded(
                s.defines,
                self.pp.macros@,
                self.line_starts@,
                n,
                j,
            )
    }

    /// Every top level function that no later one renames is recorded in
    /// `funcs` as its node gives it, its arguments then printed against some
    /// list of local type names
    pub open spec fn functions_extracted(&self, t: SyntaxTree, funcs: SymbolMap<Function>) -> bool {
        let bytes = encode_utf8(self.text@);
        let k = t.children@[0]@.len() as int;
        forall|j: int|
            0 <= j < k && #[trigger] function_last(t, bytes, j, k) ==> (funcs.get_spec(
                node_name(t, bytes, t.children@[0]@[j] as int)->0,
            ) matches Some(g) && exists|f: Function, local: Seq<Seq<char>>|
                self.function_holds(t, t.children@[0]@[j] as int, node_name(t, bytes, t.children@[0]@[j] as int)->0, f)
                    && function_fixed(f, local, g))
    }

    /// What a typedef records under `name` with type `ty` on `line`
    pub open spec fn typedef_recorded(&self, line: usize, name: Seq<char>, ty: Seq<char>, td: TypeDefinition) -> bool {
        &&& td.declaration.name@ == name
        &&& self.documents(line, td.declaration.documentation)
        &&& td.ty@ == ty
        &&& signature_parsed(ty, td.parsed_signature)
    }

    /// What an enum entry node records under `name`
    pub open spec fn entry_holds(&self, t: SyntaxTree, e: int, name: Seq<char>, entry: Entry) -> bool {
        &&& entry.declaration.name@ == name
        &&& self.documents(Self::name_line_of(t, e) as usize, entry.declaration.documentation)
        &&& crate::chronicle::opt_text(entry.value) == entry_value(
            t,
            encode_utf8(self.text@),
            *self.pp,
            field_of(t, e, seq!['v', 'a', 'l', 'u', 'e']),
            field_of(t, e, seq!['v', 'a', 'l', 'u', 'e']).len() as int,
        )
    }

    /// The entries of `m` are those the nodes `ns` record, in order
    pub open spec fn entries_hold(&self, t: SyntaxTree, ns: Seq<int>, m: SymbolMap<Entry>) -> bool {
        let slots = named_slots(t, encode_utf8(self.text@), ns);
        &&& forall|key: Seq<char>| #[trigger] m.contains_spec(key) == slots.contains_key(key)
        &&& forall|key: Seq<char>| #[trigger] slots.contains_key(key) ==> (m.get_spec(key) matches Some(e)
            && self.entry_holds(t, slots[key], key, e))
    }

    /// The constants of `c` are those of `c0` with one for each of the
    /// entry nodes `ns`, in order
    pub open spec fn constants_hold(&self, t: SyntaxTree, ns: Seq<int>, c0: SymbolMap<Constant>, c: SymbolMap<Constant>) -> bool {
        let slots = named_slots(t, encode_utf8(self.text@), ns);
        &&& forall|key: Seq<char>| !slots.contains_key(key) ==> #[trigger] c.get_spec(key) == c0.get_spec(key)
        &&& forall|key: Seq<char>| #[trigger] slots.contains_key(key) ==> (c.get_spec(key) matches Some(k)
            && k.declaration.name@ == key && self.documents(Self::name_line_of(t, slots[key]) as usize, k.declaration.documentation))
    }

    proof fn lemma_entries_step(&self, t: SyntaxTree, ns: Seq<int>, m0: SymbolMap<Entry>, m1: SymbolMap<Entry>, e: Entry)
        requires
            ns.len() > 0,
            self.entries_hold(t, ns.drop_last(), m0),
            node_name(t, encode_utf8(self.text@), ns.last()) == Some(e.declaration.name@),
            self.entry_holds(t, ns.last(), e.declaration.name@, e),
            forall|key: Seq<char>| #[trigger] m1.get_spec(key) == if key == e.declaration.name@ {
                Some(e)
            } else {
                m0.get_spec(key)
            },
        ensures
            self.entries_hold(t, ns, m1),
    {
        let bytes = encode_utf8(self.text@);
        let n = e.declaration.name@;
        let s0 = named_slots(t, bytes, ns.drop_last());
        let s1 = named_slots(t, bytes, ns);
        assert(s1 == s0.insert(n, ns.last()));
        assert forall|key: Seq<char>| #[trigger] m1.contains_spec(key) == s1.contains_key(key) by {
            if key != n {
                assert(m0.contains_spec(key) == s0.contains_key(key));
            }
        }
        assert forall|key: Seq<char>| #[trigger] s1.contains_key(key) implies (m1.get_spec(key) matches Some(e2)
            && self.entry_holds(t, s1[key], key, e2)) by {
            if key != n {
                assert(s0.contains_key(key));
            }
        }
    }

    proof fn lemma_constants_concat(
        &self,
        t: SyntaxTree,
        a: Seq<int>,
        b: Seq<int>,
        c0: SymbolMap<Constant>,
        cm: SymbolMap<Constant>,
        c1: SymbolMap<Constant>,
    )
        requires
            self.constants_hold(t, a, c0, cm),
            self.constants_hold(t, b, cm, c1),
        ensures
            self.constants_hold(t, a + b, c0, c1),
    {
        let bytes = encode_utf8(self.text@);
        lemma_named_slots_concat(t, bytes, a, b);
        let sa = named_slots(t, bytes, a);
        let sb = named_slots(t, bytes, b);
        let s1 = named_slots(t, bytes, a + b);
        assert forall|key: Seq<char>| !s1.contains_key(key) implies #[trigger] c1.get_spec(key) == c0.get_spec(key) by {
            assert(!sa.contains_key(key) && !sb.contains_key(key));
        }
        assert forall|key: Seq<char>| #[trigger] s1.contains_key(key) implies (c1.get_spec(key) matches Some(k)
            && k.declaration.name@ == key && self.documents(Self::name_line_of(t, s1[key]) as usize, k.declaration.documentation)) by {
            if sb.contains_key(key) {
                assert(s1[key] == sb[key]);
            } else {
                assert(sa.contains_key(key));
                assert(s1[key] == sa[key]);
                assert(c1.get_spec(key) == cm.get_spec(key));
            }
        }
    }

    /// The constants `c` are those of the entries of the anonymous enums
    /// of the file, each under its name with its documentation
    pub open spec fn constants_extracted(&self, t: SyntaxTree, c: SymbolMap<Constant>) -> bool {
        let slots = named_slots(t, encode_utf8(self.text@), anon_entries(t, encode_utf8(self.text@), t.children@[0]@.len() as int));
        &&& forall|key: Seq<char>| !slots.contains_key(key) ==> #[trigger] c.get_spec(key) is None
        &&& forall|key: Seq<char>| #[trigger] slots.contains_key(key) ==> (c.get_spec(key) matches Some(k)
            && k.declaration.name@ == key && self.documents(Self::name_line_of(t, slots[key]) as usize, k.declaration.documentation))
    }

    proof fn lemma_constants_step(
        &self,
        t: SyntaxTree,
        ns: Seq<int>,
        c0: SymbolMap<Constant>,
        cm: SymbolMap<Constant>,
        c1: SymbolMap<Constant>,
        e: Entry,
    )
        requires
            ns.len() > 0,
            self.constants_hold(t, ns.drop_last(), c0, cm),
            node_name(t, encode_utf8(self.text@), ns.last()) == Some(e.declaration.name@),
            self.entry_holds(t, ns.last(), e.declaration.name@, e),
            forall|key: Seq<char>| #[trigger] c1.get_spec(key) == if key == e.declaration.name@ {
                Some(Constant { declaration: e.declaration })
            } else {
                cm.get_spec(key)
            },
        ensures
            self.constants_hold(t, ns, c0, c1),
    {
        let bytes = encode_utf8(self.text@);
        let n = e.declaration.name@;
        let s0 = named_slots(t, bytes, ns.drop_last());
        let s1 = named_slots(t, bytes, ns);
        assert(s1 == s0.insert(n, ns.last()));
        assert forall|key: Seq<char>| !s1.contains_key(key) implies #[trigger] c1.get_spec(key) == c0.get_spec(key) by {
            assert(!s0.contains_key(key));
        }
        assert forall|key: Seq<char>| #[trigger] s1.contains_key(key) implies (c1.get_spec(key) matches Some(k)
            && k.declaration.name@ == key && self.documents(Self::name_line_of(t, s1[key]) as usize, k.declaration.documentation)) by {
            if key != n {
                assert(s0.contains_key(key));
            }
        }
    }

    /// What an enum struct field node records under `name`
    pub open spec fn es_field_holds(&self, t: SyntaxTree, m: int, name: Seq<char>, f: Field) -> bool {
        &&& f.declaration.name@ == name
        &&& self.documents((t.nodes@[m].row + 1) as usize, f.declaration.documentation)
        &&& f.ty@ == es_field_type(t, encode_utf8(self.text@), *self.pp, m)
    }

    /// What an enum struct method node records under `name`
    pub open spec fn es_method_holds(&self, t: SyntaxTree, m: int, name: Seq<char>, f: Function) -> bool {
        let bytes = encode_utf8(self.text@);
        &&& f.declaration.name@ == name
        &&& self.documents((t.nodes@[m].row + 1) as usize, f.declaration.documentation)
        &&& f.kind@ == seq!['s', 't', 'o', 'c', 'k']
        &&& f.return_type@ == return_type_of(t, bytes, encode_utf8(self.source@), *self.pp, m)
        &&& f.arguments@.map_values(|a: Argument| param_view(a)) == parameters_of(t, bytes, *self.pp, first_field(t, m, seq!['p', 'a', 'r', 'a', 'm', 'e', 't', 'e', 'r', 's']))
    }

    /// The fields of `fs` are those the nodes `ns` record, in order
    pub open spec fn es_fields_hold(&self, t: SyntaxTree, ns: Seq<int>, fs: SymbolMap<Field>) -> bool {
        let slots = named_slots(t, encode_utf8(self.text@), ns);
        &&& forall|key: Seq<char>| #[trigger] fs.contains_spec(key) == slots.contains_key(key)
        &&& forall|key: Seq<char>| #[trigger] slots.contains_key(key) ==> (fs.get_spec(key) matches Some(f)
            && self.es_field_holds(t, slots[key], key, f))
    }

    /// The methods of `ms` are those the nodes `ns` record, in order
    pub open spec fn es_methods_hold(&self, t: SyntaxTree, ns: Seq<int>, ms: SymbolMap<Function>) -> bool {
        let slots = named_slots(t, encode_utf8(self.text@), ns);
        &&& forall|key: Seq<char>| #[trigger] ms.contains_spec(key) == slots.contains_key(key)
        &&& forall|key: Seq<char>| #[trigger] slots.contains_key(key) ==> (ms.get_spec(key) matches Some(f)
            && self.es_method_holds(t, slots[key], key, f))
    }

    /// What an old style struct field node records under `name`
    pub open spec fn struct_field_holds(&self, t: SyntaxTree, m: int, name: Seq<char>, f: Field) -> bool {
        &&& f.declaration.name@ == name
        &&& self.documents((t.nodes@[m].row + 1) as usize, f.declaration.documentation)
        &&& f.ty@ == struct_field_type(t, encode_utf8(self.text@), *self.pp, m)
    }

    /// The fields of `fs` are those the struct field nodes `ns` record, in order
    pub open spec fn struct_fields_hold(&self, t: SyntaxTree, ns: Seq<int>, fs: SymbolMap<Field>) -> bool {
        let slots = named_slots(t, encode_utf8(self.text@), ns);
        &&& forall|key: Seq<char>| #[trigger] fs.contains_spec(key) == slots.contains_key(key)
        &&& forall|key: Seq<char>| #[trigger] slots.contains_key(key) ==> (fs.get_spec(key) matches Some(f)
            && self.struct_field_holds(t, slots[key], key, f))
    }

    proof fn lemma_struct_field_step(&self, t: SyntaxTree, ns: Seq<int>, m0: SymbolMap<Field>, m1: SymbolMap<Field>, e: Field)
        requires
            ns.len() > 0,
            self.struct_fields_hold(t, ns.drop_last(), m0),
            node_name(t, encode_utf8(self.text@), ns.last()) == Some(e.declaration.name@),
            self.struct_field_holds(t, ns.last(), e.declaration.name@, e),
            forall|key: Seq<char>| #[trigger] m1.get_spec(key) == if key == e.declaration.name@ {
                Some(e)
            } else {
                m0.get_spec(key)
            },
        ensures
            self.struct_fields_hold(t, ns, m1),
    {
        let bytes = encode_utf8(self.text@);
        let n = e.declaration.name@;
        let s0 = named_slots(t, bytes, ns.drop_last());
        let s1 = named_slots(t, bytes, ns);
        assert(s1 == s0.insert(n, ns.last()));
        assert forall|key: Seq<char>| #[trigger] m1.contains_spec(key) == s1.contains_key(key) by {
            if key != n {
                assert(m0.contains_spec(key) == s0.contains_key(key));
            }
        }
        assert forall|key: Seq<char>| #[trigger] s1.contains_key(key) implies (m1.get_spec(key) matches Some(e2)
            && self.struct_field_holds(t, s1[key], key, e2)) by {
            if key != n {
                assert(s0.contains_key(key));
            }
        }
    }

    proof fn lemma_es_field_step(&self, t: SyntaxTree, ns: Seq<int>, m0: SymbolMap<Field>, m1: SymbolMap<Field>, e: Field)
        requires
            ns.len() > 0,
            self.es_fields_hold(t, ns.drop_last(), m0),
            node_name(t, encode_utf8(self.text@), ns.last()) == Some(e.declaration.name@),
            self.es_field_holds(t, ns.last(), e.declaration.name@, e),
            forall|key: Seq<char>| #[trigger] m1.get_spec(key) == if key == e.declaration.name@ {
                Some(e)
            } else {
                m0.get_spec(key)
            },
        ensures
            self.es_fields_hold(t, ns, m1),
    {
        let bytes = encode_utf8(self.text@);
        let n = e.declaration.name@;
        let s0 = named_slots(t, bytes, ns.drop_last());
        let s1 = named_slots(t, bytes, ns);
        assert(s1 == s0.insert(n, ns.last()));
        assert forall|key: Seq<char>| #[trigger] m1.contains_spec(key) == s1.contains_key(key) by {
            if key != n {
                assert(m0.contains_spec(key) == s0.contains_key(key));
            }
        }
        assert forall|key: Seq<char>| #[trigger] s1.contains_key(key) implies (m1.get_spec(key) matches Some(e2)
            && self.es_field_holds(t, s1[key], key, e2)) by {
            if key != n {
                assert(s0.contains_key(key));
            }
        }
    }

    proof fn lemma_es_method_step(&self, t: SyntaxTree, ns: Seq<int>, m0: SymbolMap<Function>, m1: SymbolMap<Function>, e: Function)
        requires
            ns.len() > 0,
            self.es_methods_hold(t, ns.drop_last(), m0),
            node_name(t, encode_utf8(self.text@), ns.last()) == Some(e.declaration.name@),
            self.es_method_holds(t, ns.last(), e.declaration.name@, e),
            forall|key: Seq<char>| #[trigger] m1.get_spec(key) == if key == e.declaration.name@ {
                Some(e)
            } else {
                m0.get_spec(key)
            },
        ensures
            self.es_methods_hold(t, ns, m1),
    {
        let bytes = encode_utf8(self.text@);
        let n = e.declaration.name@;
        let s0 = named_slots(t, bytes, ns.drop_last());
        let s1 = named_slots(t, bytes, ns);
        assert(s1 == s0.insert(n, ns.last()));
        assert forall|key: Seq<char>| #[trigger] m1.contains_spec(key) == s1.contains_key(key) by {
            if key != n {
                assert(m0.contains_spec(key) == s0.contains_key(key));
            }
        }
        assert forall|key: Seq<char>| #[trigger] s1.contains_key(key) implies (m1.get_spec(key) matches Some(e2)
            && self.es_method_holds(t, s1[key], key, e2)) by {
            if key != n {
                assert(s0.contains_key(key));
            }
        }
    }

    /// The types of `m` are the signatures `sigs` records, each documented on
    /// its line, in order
    pub open spec fn types_hold(&self, sigs: Seq<(Seq<char>, usize)>, m: SymbolMap<Type>) -> bool {
        let slots = sig_slots(sigs);
        &&& forall|key: Seq<char>| #[trigger] m.contains_spec(key) == slots.contains_key(key)
        &&& forall|key: Seq<char>| #[trigger] slots.contains_key(key) ==> (m.get_spec(key) matches Some(ty) && ty.ty@ == key
            && 0 <= slots[key] < sigs.len() && self.documents(sigs[slots[key]].1, ty.documentation) && signature_parsed(
            key,
            ty.parsed_signature,
        ))
    }

    /// What a method member records under `key`
    pub open spec fn method_holds(&self, t: SyntaxTree, m: int, mm_name: Seq<char>, funcs: SymbolMap<Function>, key: Seq<char>, f: Function) -> bool {
        match method_entry(t, encode_utf8(self.text@), encode_utf8(self.source@), *self.pp, funcs, mm_name, m) {
            Some((k, (kind, ret, args))) => {
                &&& k == key
                &&& f.declaration.name@ == key
                &&& self.documents((t.nodes@[m].row + 1) as usize, f.declaration.documentation)
                &&& f.kind@ == kind
                &&& f.return_type@ == ret
                &&& f.arguments@.map_values(|a: Argument| param_view(a)) == args
            },
            None => false,
        }
    }

    /// Methods and properties of a methodmap after its first `k` members
    pub open spec fn members_hold(&self, t: SyntaxTree, node: int, mm_name: Seq<char>, funcs: SymbolMap<Function>, k: int, methods: SymbolMap<Function>, properties: SymbolMap<Property>) -> bool {
        let (ms, ps) = member_slots(t, encode_utf8(self.text@), encode_utf8(self.source@), *self.pp, funcs, mm_name, node, k);
        &&& forall|key: Seq<char>| #[trigger] methods.contains_spec(key) == ms.contains_key(key)
        &&& forall|key: Seq<char>| #[trigger] ms.contains_key(key) ==> (methods.get_spec(key) matches Some(f) && self.method_holds(t, ms[key], mm_name, funcs, key, f))
        &&& forall|key: Seq<char>| #[trigger] properties.contains_spec(key) == ps.contains_key(key)
        &&& forall|key: Seq<char>| #[trigger] ps.contains_key(key) ==> (properties.get_spec(key) matches Some(p) && self.property_holds(t, ps[key], key, p))
    }

    /// What a methodmap node records under `name`: its documentation, the
    /// text of its `inherits` field as parent, and its members
    pub open spec fn methodmap_holds(&self, t: SyntaxTree, node: int, name: Seq<char>, funcs: SymbolMap<Function>, mm: MethodMap) -> bool {
        &&& mm.declaration.name@ == name
        &&& self.documents((t.nodes@[node].row + 1) as usize, mm.declaration.documentation)
        &&& crate::chronicle::opt_text(mm.parent) == match first_field(t, node, seq!['i', 'n', 'h', 'e', 'r', 'i', 't', 's']) {
            Some(p) => Some(node_text(t, encode_utf8(self.text@), p as int)),
            None => None,
        }
        &&& self.members_hold(t, node, name, funcs, t.children@[node]@.len() as int, mm.methods, mm.properties)
    }

    proof fn lemma_property_step(
        &self,
        t: SyntaxTree,
        node: int,
        mm_name: Seq<char>,
        funcs: SymbolMap<Function>,
        k: int,
        methods: SymbolMap<Function>,
        props0: SymbolMap<Property>,
        props1: SymbolMap<Property>,
        m: int,
        p: Property,
    )
        requires
            0 < k <= t.children@[node]@.len(),
            m == t.children@[node]@[k - 1],
            t.nodes@[m].kind@ == seq!['m', 'e', 't', 'h', 'o', 'd', 'm', 'a', 'p', '_', 'p', 'r', 'o', 'p', 'e', 'r', 't', 'y'],
            node_name(t, encode_utf8(self.text@), m) == Some(p.declaration.name@),
            self.members_hold(t, node, mm_name, funcs, k - 1, methods, props0),
            self.property_holds(t, m, p.declaration.name@, p),
            forall|key: Seq<char>| #[trigger] props1.get_spec(key) == if key == p.declaration.name@ {
                Some(p)
            } else {
                props0.get_spec(key)
            },
        ensures
            self.members_hold(t, node, mm_name, funcs, k, methods, props1),
    {
        let bytes = encode_utf8(self.text@);
        let src = encode_utf8(self.source@);
        let n = p.declaration.name@;
        let slots0 = member_slots(t, bytes, src, *self.pp, funcs, mm_name, node, k - 1);
        let slots1 = member_slots(t, bytes, src, *self.pp, funcs, mm_name, node, k);
        assert(slots1 == (slots0.0, slots0.1.insert(n, m)));
        assert forall|key: Seq<char>| #[trigger] props1.contains_spec(key) == slots1.1.contains_key(key) by {
            if key != n {
                assert(props0.contains_spec(key) == slots0.1.contains_key(key));
            }
        }
        assert forall|key: Seq<char>| #[trigger] slots1.1.contains_key(key) implies (props1.get_spec(key) matches Some(p2)
            && self.property_holds(t, slots1.1[key], key, p2)) by {
            if key != n {
                assert(slots0.1.contains_key(key));
            }
        }
    }

    proof fn lemma_method_step(
        &self,
        t: SyntaxTree,
        node: int,
        mm_name: Seq<char>,
        funcs: SymbolMap<Function>,
        k: int,
        methods0: SymbolMap<Function>,
        methods1: SymbolMap<Function>,
        props: SymbolMap<Property>,
        m: int,
        key: Seq<char>,
        f: Function,
    )
        requires
            0 < k <= t.children@[node]@.len(),
            m == t.children@[node]@[k - 1],
            t.nodes@[m].kind@ != seq!['m', 'e', 't', 'h', 'o', 'd', 'm', 'a', 'p', '_', 'p', 'r', 'o', 'p', 'e', 'r', 't', 'y'],
            method_entry(t, encode_utf8(self.text@), encode_utf8(self.source@), *self.pp, funcs, mm_name, m) matches Some((k2, _)) && k2 == key,
            self.members_hold(t, node, mm_name, funcs, k - 1, methods0, props),
            self.method_holds(t, m, mm_name, funcs, key, f),
            forall|key2: Seq<char>| #[trigger] methods1.get_spec(key2) == if key2 == key {
                Some(f)
            } else {
                methods0.get_spec(key2)
            },
        ensures
            self.members_hold(t, node, mm_name, funcs, k, methods1, props),
    {
        let bytes = encode_utf8(self.text@);
        let src = encode_utf8(self.source@);
        let slots0 = member_slots(t, bytes, src, *self.pp, funcs, mm_name, node, k - 1);
        let slots1 = member_slots(t, bytes, src, *self.pp, funcs, mm_name, node, k);
        assert(slots1 == (slots0.0.insert(key, m), slots0.1));
        assert forall|key2: Seq<char>| #[trigger] methods1.contains_spec(key2) == slots1.0.contains_key(key2) by {
            if key2 != key {
                assert(methods0.contains_spec(key2) == slots0.0.contains_key(key2));
            }
        }
        assert forall|key2: Seq<char>| #[trigger] slots1.0.contains_key(key2) implies (methods1.get_spec(key2) matches Some(f2)
            && self.method_holds(t, slots1.0[key2], mm_name, funcs, key2, f2)) by {
            if key2 != key {
                assert(slots0.0.contains_key(key2));
            }
        }
    }

    fn documentation(&self, line: usize) -> (d: Documentation)
        ensures
            self.documents(line, d),
    {
        match self.comments.find(line) {
            Some(r) => {
                let bytes = self.source.as_bytes();
                let docs = if r.start <= r.end && r.end <= bytes.len() {
                    let text = string_from_bytes(&bytes[r.start..r.end]);
                    Some(parse_doc_comment(text.as_str()))
                } else {
                    None
                };
                Documentation {
                    ref_line: line as u64,
                    doc_start: DocLocation::from_offset(r.start),
                    doc_end: DocLocation::from_offset(r.end),
                    docs: docs,
                    metadata: None,
                }
            },
            None => Documentation {
                ref_line: line as u64,
                doc_start: DocLocation(0),
                doc_end: DocLocation(0),
                docs: None,
                metadata: None,
            },
        }
    }

    fn declaration(&self, name: &Vec<char>, line: usize) -> (d: Declaration)
        ensures
            d.name@ == name@,
            self.documents(line, d.documentation),
    {
        Declaration { name: to_string(name), documentation: self.documentation(line) }
    }

    /// The text of node `i` rendered as docparse printed expressions, with
    /// the macros defined at its position
    fn render_expr(&self, t: &SyntaxTree, i: usize) -> (r: Vec<char>)
        requires
            tree_ok(t, self.text.len() as int),
            i < t.nodes.len(),
        ensures
            r@ == render_source(*self.pp, t.nodes@[i as int].start_byte, 0, node_text(*t, encode_utf8(self.text@), i as int)),
    {
        let src = to_string(&self.text_of(t, i));
        let mut renderer = Renderer::new(self.pp, t.nodes[i].start_byte);
        let s = renderer.render_src(src.as_str());
        chars_of(s.as_str())
    }

    fn dim(&self, t: &SyntaxTree, i: usize) -> (r: Vec<char>)
        requires
            tree_ok(t, self.text.len() as int),
            i < t.nodes.len(),
        ensures
            r@ == dim_of(*t, encode_utf8(self.text@), *self.pp, i as int),
    {
        let empty = vec!['[', ']'];
        assert(empty@ == seq!['[', ']']);
        if kind_is(t, i, &['f', 'i', 'x', 'e', 'd', '_', 'd', 'i', 'm', 'e', 'n', 's', 'i', 'o', 'n']) {
            let cs = &t.children[i];
            let mut k: usize = 0;
            while k < cs.len()
                invariant
                    tree_ok(t, self.text.len() as int),
                    i < t.nodes.len(),
                    cs == &t.children@[i as int],
                    k <= cs.len(),
                    t.nodes@[i as int].kind@ == seq!['f', 'i', 'x', 'e', 'd', '_', 'd', 'i', 'm', 'e', 'n', 's', 'i', 'o', 'n'],
                    dim_child(*t, i as int, 0) == dim_child(*t, i as int, k as int),
                    empty@ == seq!['[', ']'],
                decreases cs.len() - k,
            {
                let c = cs[k];
                assert(i < t.children@[i as int]@[k as int] < t.nodes@.len());
                if t.nodes[c].named && !kind_is(t, c, &['d', 'i', 'm', 'e', 'n', 's', 'i', 'o', 'n', '_', 'p', 'a', 'c',
                    'k', 'i', 'n', 'g']) && !kind_is(t, c, &['c', 'o', 'm', 'm', 'e', 'n', 't']) {
                    let size = self.render_expr(t, c);
                    let mut spaced = false;
                    let mut m: usize = 0;
                    while m < size.len()
                        invariant
                            m <= size.len(),
                            spaced == (exists|q: int| 0 <= q < m && size@[q] == ' '),
                        decreases size.len() - m,
                    {
                        if size[m] == ' ' {
                            spaced = true;
                        }
                        m = m + 1;
                    }
                    if spaced {
                        return empty;
                    }
                    let mut r = vec!['['];
                    push_all(&mut r, size.as_slice());
                    r.push(']');
                    return r;
                }
                k = k + 1;
            }
        }
        empty
    }

    /// Base type name from a `type`, `old_type` or `builtin_type` node
    fn base_type(&self, t: &SyntaxTree, i: usize) -> (r: Vec<char>)
        requires
            tree_ok(t, self.text.len() as int),
            i < t.nodes.len(),
        ensures
            r@ == base_type_of(*t, encode_utf8(self.text@), i as int),
        decreases t.nodes.len() - i,
    {
        if kind_is(t, i, &['o', 'l', 'd', '_', 't', 'y', 'p', 'e']) {
            let cs = &t.children[i];
            let mut k: usize = 0;
            while k < cs.len()
                invariant
                    tree_ok(t, self.text.len() as int),
                    i < t.nodes.len(),
                    cs == &t.children@[i as int],
                    k <= cs.len(),
                    t.nodes@[i as int].kind@ == seq!['o', 'l', 'd', '_', 't', 'y', 'p', 'e'],
                    tag_child(*t, i as int, 0) == tag_child(*t, i as int, k as int),
                decreases cs.len() - k,
            {
                let c = cs[k];
                assert(i < t.children@[i as int]@[k as int] < t.nodes@.len());
                let colon = [':'];
                assert(colon@ == seq![':']);
                if !kind_is(t, c, &colon) {
                    if kind_is(t, c, &['m', 'u', 'l', 't', 'i', '_', 't', 'a', 'g']) {
                        let r = vec!['a', 'n', 'y'];
                        assert(r@ == seq!['a', 'n', 'y']);
                        return r;
                    }
                    let tag = trim_chars(self.text_of(t, c).as_slice());
                    let ty = old_tag_to_type(to_string(&tag).as_str());
                    return chars_of(ty.as_str());
                }
                k = k + 1;
            }
            let r = vec!['i', 'n', 't'];
            assert(r@ == seq!['i', 'n', 't']);
            return r;
        }
        if kind_is(t, i, &['a', 'r', 'r', 'a', 'y', '_', 't', 'y', 'p', 'e']) {
            let cs = &t.children[i];
            let mut k: usize = 0;
            while k < cs.len()
                invariant
                    tree_ok(t, self.text.len() as int),
                    i < t.nodes.len(),
                    cs == &t.children@[i as int],
                    k <= cs.len(),
                    t.nodes@[i as int].kind@ == seq!['a', 'r', 'r', 'a', 'y', '_', 't', 'y', 'p', 'e'],
                    t.nodes@[i as int].kind@ != seq!['o', 'l', 'd', '_', 't', 'y', 'p', 'e'],
                    type_child(*t, i as int, 0) == type_child(*t, i as int, k as int),
                decreases cs.len() - k,
            {
                let c = cs[k];
                assert(i < t.children@[i as int]@[k as int] < t.nodes@.len());
                if kind_is(t, c, &['t', 'y', 'p', 'e']) {
                    return self.base_type(t, c);
                }
                k = k + 1;
            }
            return Vec::new();
        }
        let s = trim_chars(self.text_of(t, i).as_slice());
        if s.len() == 0 {
            let r = vec!['i', 'n', 't'];
            assert(r@ == seq!['i', 'n', 't']);
            r
        } else {
            s
        }
    }

    fn is_dimension(t: &SyntaxTree, i: usize) -> (r: bool)
        requires
            i < t.nodes.len(),
        ensures
            r == (t.nodes@[i as int].kind@ == seq!['d', 'i', 'm', 'e', 'n', 's', 'i', 'o', 'n']
                || t.nodes@[i as int].kind@ == seq!['f', 'i', 'x', 'e', 'd', '_', 'd', 'i', 'm', 'e', 'n', 's', 'i', 'o', 'n']),
    {
        kind_is(t, i, &['d', 'i', 'm', 'e', 'n', 's', 'i', 'o', 'n']) || kind_is(t, i, &['f', 'i', 'x', 'e', 'd', '_',
            'd', 'i', 'm', 'e', 'n', 's', 'i', 'o', 'n'])
    }

    /// Collects type information from a node's `type`/`returnType` field
    /// and any dimensions written after it
    fn type_parts(&self, t: &SyntaxTree, nodes: &Vec<usize>) -> (p: TypeParts)
        requires
            tree_ok(t, self.text.len() as int),
            forall|k: int| 0 <= k < nodes@.len() ==> #[trigger] nodes@[k] < t.nodes.len(),
        ensures
            !p.is_const,
            p.postfix_dims@.len() == 0,
            (p.base@, p.prefix_dims@.map_values(|d: Vec<char>| d@), p.by_ref) == type_parts_upto(
                *t,
                encode_utf8(self.text@),
                *self.pp,
                nodes@,
                nodes@.len() as int,
            ),
    {
        let ghost bytes = encode_utf8(self.text@);
        let amp = ['&'];
        assert(amp@ == seq!['&']);
        let mut parts = TypeParts::new();
        proof {
            assert(parts.prefix_dims@.map_values(|d: Vec<char>| d@) =~= Seq::<Seq<char>>::empty());
        }
        let mut k: usize = 0;
        while k < nodes.len()
            invariant
                tree_ok(t, self.text.len() as int),
                bytes == encode_utf8(self.text@),
                amp@ == seq!['&'],
                forall|j: int| 0 <= j < nodes@.len() ==> #[trigger] nodes@[j] < t.nodes.len(),
                k <= nodes.len(),
                !parts.is_const,
                parts.postfix_dims@.len() == 0,
                (parts.base@, parts.prefix_dims@.map_values(|d: Vec<char>| d@), parts.by_ref) == type_parts_upto(
                    *t,
                    bytes,
                    *self.pp,
                    nodes@,
                    k as int,
                ),
            decreases nodes.len() - k,
        {
            let ghost before = parts.prefix_dims@.map_values(|d: Vec<char>| d@);
            let ghost by_ref0 = parts.by_ref;
            let n = nodes[k];
            if kind_is(t, n, &['t', 'y', 'p', 'e']) || kind_is(t, n, &['o', 'l', 'd', '_', 't', 'y', 'p', 'e'])
                || kind_is(t, n, &['b', 'u', 'i', 'l', 't', 'i', 'n', '_', 't', 'y', 'p', 'e']) {
                parts.base = self.base_type(t, n);
            } else if kind_is(t, n, &['a', 'r', 'r', 'a', 'y', '_', 't', 'y', 'p', 'e']) {
                parts.base = self.base_type(t, n);
                let cs = &t.children[n];
                let mut m: usize = 0;
                while m < cs.len()
                    invariant
                        tree_ok(t, self.text.len() as int),
                        bytes == encode_utf8(self.text@),
                        n < t.nodes.len(),
                        cs == &t.children@[n as int],
                        m <= cs.len(),
                        parts.prefix_dims@.map_values(|d: Vec<char>| d@) == before + array_dims(*t, bytes, *self.pp, n as int, m as int),
                        !parts.is_const,
                        parts.postfix_dims@.len() == 0,
                        parts.by_ref == by_ref0,
                        parts.base@ == base_type_of(*t, bytes, n as int),
                    decreases cs.len() - m,
                {
                    let c = cs[m];
                    assert(n < t.children@[n as int]@[m as int] < t.nodes@.len());
                    let ghost pre = parts.prefix_dims@.map_values(|d: Vec<char>| d@);
                    if Self::is_dimension(t, c) {
                        let d = self.dim(t, c);
                        parts.prefix_dims.push(d);
                        assert(parts.prefix_dims@.map_values(|d: Vec<char>| d@) =~= pre.push(d@));
                    }
                    m = m + 1;
                }
            } else if Self::is_dimension(t, n) {
                let d = self.dim(t, n);
                parts.prefix_dims.push(d);
                assert(parts.prefix_dims@.map_values(|d: Vec<char>| d@) =~= before.push(d@));
            } else if kind_is(t, n, &amp) {
                parts.by_ref = true;
            }
            k = k + 1;
        }
        parts
    }
}

/// The declarations of the first `k` arguments, separated by `, `
pub open spec fn joined_decls(params: Seq<(Seq<char>, Seq<char>, Seq<char>, Option<Seq<char>>)>, k: int) -> Seq<
    char,
>
    decreases k,
{
    if k <= 0 {
        Seq::empty()
    } else if k == 1 {
        params[0].2
    } else {
        joined_decls(params, k - 1) + seq![',', ' '] + params[k - 1].2
    }
}

/// `function <return>(<declarations>)`, over arguments as
/// (type, name, declaration, default)
pub open spec fn signature_of(return_type: Seq<char>, params: Seq<(Seq<char>, Seq<char>, Seq<char>, Option<Seq<char>>)>) -> Seq<char> {
    seq!['f', 'u', 'n', 'c', 't', 'i', 'o', 'n', ' '] + return_type + seq!['('] + joined_decls(params, params.len() as int)
        + seq![')']
}

/// `function void(int client)`
fn signature(return_type: &Vec<char>, params: &Vec<Argument>) -> (r: Vec<char>)
    ensures
        r@ == signature_of(return_type@, params@.map_values(|a: Argument| param_view(a))),
{
    let ghost ps = params@.map_values(|a: Argument| param_view(a));
    let mut r = vec!['f', 'u', 'n', 'c', 't', 'i', 'o', 'n', ' '];
    push_all(&mut r, return_type.as_slice());
    r.push('(');
    let ghost head = r@;
    assert(head == seq!['f', 'u', 'n', 'c', 't', 'i', 'o', 'n', ' '] + return_type@ + seq!['(']);
    let mut k: usize = 0;
    while k < params.len()
        invariant
            k <= params.len(),
            r@ == head + joined_decls(ps, k as int),
            ps == params@.map_values(|a: Argument| param_view(a)),
        decreases params.len() - k,
    {
        if k > 0 {
            r.push(',');
            r.push(' ');
        }
        let d = chars_of(params[k].decl.as_str());
        assert(ps[k as int].2 == params@[k as int].decl@);
        push_all(&mut r, d.as_slice());
        k = k + 1;
        assert(r@ =~= head + joined_decls(ps, k as int));
    }
    r.push(')');
    r
}

impl<'a> Extractor<'a> {
    /// The argument a `parameter_declaration` node declares
    fn declared_parameter(&self, t: &SyntaxTree, node: usize) -> (r: Argument)
        requires
            tree_ok(t, self.text.len() as int),
            node < t.nodes.len(),
            t.nodes@[node as int].kind@ == seq![
                'p',
                'a',
                'r',
                'a',
                'm',
                'e',
                't',
                'e',
                'r',
                '_',
                'd',
                'e',
                'c',
                'l',
                'a',
                'r',
                'a',
                't',
                'i',
                'o',
                'n',
            ],
        ensures
            match parameter_of(*t, encode_utf8(self.text@), *self.pp, node as int) {
                Some((ty, name, decl, default)) => r.ty@ == ty && r.name@ == name && r.decl@ == decl
                    && crate::chronicle::opt_text(r.default) == default,
                None => false,
            },
    {
        let ghost bytes = encode_utf8(self.text@);
        let storage = ['v', 'a', 'r', 'i', 'a', 'b', 'l', 'e', '_', 's', 't', 'o', 'r', 'a', 'g', 'e', '_', 'c', 'l', 'a',
            's', 's'];
        assert(storage@ == storage_kind());
        let amp_kind = ['&'];
        assert(amp_kind@ == seq!['&']);
        let types = field_nodes(t, node, &['t', 'y', 'p', 'e']);
        let mut parts = self.type_parts(t, &types);
        let ghost base = parts.base@;
        let ghost prefix0 = texts(parts.prefix_dims@);
        let ghost by_ref0 = parts.by_ref;
        proof {
            assert(prefix0 =~= parts.prefix_dims@.map_values(|d: Vec<char>| d@));
            assert(texts(parts.postfix_dims@) =~= Seq::<Seq<char>>::empty());
        }
        let mut name: Vec<char> = Vec::new();
        let mut default: Option<String> = None;
        let mut seen_name = false;
        let cs = &t.children[node];
        let mut k: usize = 0;
        while k < cs.len()
            invariant
                tree_ok(t, self.text.len() as int),
                bytes == encode_utf8(self.text@),
                storage@ == storage_kind(),
                amp_kind@ == seq!['&'],
                node < t.nodes.len(),
                cs == &t.children@[node as int],
                k <= cs.len(),
                parts.base@ == base,
                texts(parts.prefix_dims@) == prefix0,
                (parts.is_const, parts.by_ref, texts(parts.postfix_dims@), name@, seen_name) == param_scan(
                    *t,
                    bytes,
                    *self.pp,
                    node as int,
                    k as int,
                    by_ref0,
                ),
            decreases cs.len() - k,
        {
            let c = cs[k];
            assert(node < t.children@[node as int]@[k as int] < t.nodes@.len());
            let ghost post0 = texts(parts.postfix_dims@);
            if kind_is(t, c, &storage) {
                parts.is_const = true;
            } else if kind_is(t, c, &amp_kind) {
                parts.by_ref = true;
            } else if seen_name && Self::is_dimension(t, c) {
                let d = self.dim(t, c);
                parts.postfix_dims.push(d);
                assert(texts(parts.postfix_dims@) =~= post0.push(d@));
            }
            if field_is(t, c, &['n', 'a', 'm', 'e']) {
                name = self.text_of(t, c);
                seen_name = true;
            }
            k = k + 1;
        }
        match child_by_field(t, node, &['d', 'e', 'f', 'a', 'u', 'l', 't', 'V', 'a', 'l', 'u', 'e']) {
            Some(d) => {
                default = Some(to_string(&self.render_expr(t, d)));
            },
            None => {},
        }
        let mut old_style = types.len() == 0;
        let mut m: usize = 0;
        while m < types.len()
            invariant
                forall|j: int| 0 <= j < types@.len() ==> node < #[trigger] types@[j] < t.nodes.len(),
                m <= types.len(),
                old_style == (types@.len() == 0 || exists|q: int| 0 <= q < m && t.nodes@[types@[q] as int].kind@
                    == seq!['o', 'l', 'd', '_', 't', 'y', 'p', 'e']),
            decreases types.len() - m,
        {
            if kind_is(t, types[m], &['o', 'l', 'd', '_', 't', 'y', 'p', 'e']) {
                old_style = true;
            }
            m = m + 1;
        }
        if old_style {
            let mut all_open = true;
            let mut m: usize = 0;
            while m < parts.postfix_dims.len()
                invariant
                    m <= parts.postfix_dims.len(),
                    all_open == (forall|q: int| 0 <= q < m ==> (#[trigger] parts.postfix_dims@[q])@ == seq!['[', ']']),
                decreases parts.postfix_dims.len() - m,
            {
                let open_dim = ['[', ']'];
                assert(open_dim@ == seq!['[', ']']);
                if !chars_eq(parts.postfix_dims[m].as_slice(), &open_dim) {
                    all_open = false;
                }
                m = m + 1;
            }
            proof {
                assert(forall|q: int|
                    #![trigger parts.postfix_dims@[q]]
                    #![trigger texts(parts.postfix_dims@)[q]]
                    0 <= q < parts.postfix_dims@.len() ==> texts(parts.postfix_dims@)[q] == parts.postfix_dims@[q]@);
                assert(all_open == (forall|q: int| 0 <= q < texts(parts.postfix_dims@).len() ==> #[trigger] texts(
                    parts.postfix_dims@,
                )[q] == seq!['[', ']']));
            }
            if all_open {
                let ghost pre = texts(parts.prefix_dims@);
                let ghost post = texts(parts.postfix_dims@);
                let mut postfix: Vec<Vec<char>> = Vec::new();
                std::mem::swap(&mut postfix, &mut parts.postfix_dims);
                parts.prefix_dims.append(&mut postfix);
                assert(texts(parts.prefix_dims@) =~= pre + post);
                assert(texts(parts.postfix_dims@) =~= Seq::<Seq<char>>::empty());
            }
        }
        let ty = parts.type_string();
        let decl = parts.decl_string(&name);
        Argument { ty: to_string(&ty), name: to_string(&name), decl: to_string(&decl), default: default }
    }

    fn parameter(&self, t: &SyntaxTree, node: usize) -> (r: Option<Argument>)
        requires
            tree_ok(t, self.text.len() as int),
            node < t.nodes.len(),
        ensures
            match parameter_of(*t, encode_utf8(self.text@), *self.pp, node as int) {
                Some((ty, name, decl, default)) => r matches Some(a) && a.ty@ == ty && a.name@ == name && a.decl@ == decl
                    && crate::chronicle::opt_text(a.default) == default,
                None => r is None,
            },
    {
        let ghost bytes = encode_utf8(self.text@);
        let storage = ['v', 'a', 'r', 'i', 'a', 'b', 'l', 'e', '_', 's', 't', 'o', 'r', 'a', 'g', 'e', '_', 'c', 'l', 'a',
            's', 's'];
        assert(storage@ == storage_kind());
        if kind_is(t, node, &['p', 'a', 'r', 'a', 'm', 'e', 't', 'e', 'r', '_', 'd', 'e', 'c', 'l', 'a', 'r', 'a', 't',
            'i', 'o', 'n']) {
            return Some(self.declared_parameter(t, node));
        }
        if kind_is(t, node, &['r', 'e', 's', 't', '_', 'p', 'a', 'r', 'a', 'm', 'e', 't', 'e', 'r']) {
            let types = field_nodes(t, node, &['t', 'y', 'p', 'e']);
            let mut parts = self.type_parts(t, &types);
            let ghost p0 = parts;
            let cs = &t.children[node];
            let mut k: usize = 0;
            while k < cs.len()
                invariant
                    tree_ok(t, self.text.len() as int),
                    storage@ == storage_kind(),
                    node < t.nodes.len(),
                    cs == &t.children@[node as int],
                    k <= cs.len(),
                    parts.base == p0.base,
                    parts.prefix_dims == p0.prefix_dims,
                    parts.postfix_dims == p0.postfix_dims,
                    parts.by_ref == p0.by_ref,
                    parts.is_const == (exists|q: int| 0 <= q < k && t.nodes@[t.children@[node as int]@[q] as int].kind@
                        == storage_kind()),
                decreases cs.len() - k,
            {
                let c = cs[k];
                assert(node < t.children@[node as int]@[k as int] < t.nodes@.len());
                if kind_is(t, c, &storage) {
                    parts.is_const = true;
                }
                k = k + 1;
            }
            proof {
                assert(texts(parts.postfix_dims@) =~= Seq::<Seq<char>>::empty());
                assert(texts(parts.prefix_dims@) + texts(parts.postfix_dims@) =~= texts(parts.prefix_dims@));
                assert(texts(parts.prefix_dims@) =~= p0.prefix_dims@.map_values(|d: Vec<char>| d@));
            }
            let mut ty = parts.type_string();
            push_all(&mut ty, &['.', '.', '.']);
            let dots = vec!['.', '.', '.'];
            assert(dots@ == seq!['.', '.', '.']);
            return Some(Argument {
                ty: to_string(&ty),
                name: to_string(&dots),
                decl: to_string(&ty),
                default: None,
            });
        }
        None
    }

    fn parameters(&self, t: &SyntaxTree, node: Option<usize>) -> (r: Vec<Argument>)
        requires
            tree_ok(t, self.text.len() as int),
            node matches Some(n) ==> n < t.nodes.len(),
        ensures
            r@.map_values(|a: Argument| param_view(a)) == parameters_of(*t, encode_utf8(self.text@), *self.pp, node),
    {
        let ghost bytes = encode_utf8(self.text@);
        let mut r: Vec<Argument> = Vec::new();
        match node {
            Some(n) => {
                let cs = &t.children[n];
                let mut k: usize = 0;
                while k < cs.len()
                    invariant
                        tree_ok(t, self.text.len() as int),
                        n < t.nodes.len(),
                        cs == &t.children@[n as int],
                        k <= cs.len(),
                        bytes == encode_utf8(self.text@),
                        r@.map_values(|a: Argument| param_view(a)) == params_upto(*t, bytes, *self.pp, n as int, k as int),
                    decreases cs.len() - k,
                {
                    let c = cs[k];
                    assert(n < t.children@[n as int]@[k as int] < t.nodes@.len());
                    let ghost before = r@;
                    match self.parameter(t, c) {
                        Some(a) => {
                            r.push(a);
                            assert(r@.map_values(|a: Argument| param_view(a)) =~= before.map_values(
                                |a: Argument| param_view(a),
                            ).push(param_view(a)));
                        },
                        None => {},
                    }
                    k = k + 1;
                }
            },
            None => {},
        }
        r
    }

    fn return_type(&self, t: &SyntaxTree, node: usize) -> (r: Vec<char>)
        requires
            tree_ok(t, self.text.len() as int),
            node < t.nodes.len(),
        ensures
            r@ == return_type_of(*t, encode_utf8(self.text@), encode_utf8(self.source@), *self.pp, node as int),
    {
        let nodes = field_nodes(t, node, &['r', 'e', 't', 'u', 'r', 'n', 'T', 'y', 'p', 'e']);
        if nodes.len() == 0 {
            let is_definition = kind_is(t, node, &['f', 'u', 'n', 'c', 't', 'i', 'o', 'n', '_', 'd', 'e', 'f', 'i', 'n',
                'i', 't', 'i', 'o', 'n']);
            let mut gives_value = false;
            if is_definition {
                match child_by_field(t, node, &['b', 'o', 'd', 'y']) {
                    Some(b) => {
                        let bytes = self.source.as_bytes();
                        let (a, e) = (t.nodes[b].start_byte, t.nodes[b].end_byte);
                        if a <= e && e <= bytes.len() {
                            let body = chars_of(string_from_bytes(&bytes[a..e]).as_str());
                            gives_value = returns_value(&body);
                        }
                    },
                    None => {},
                }
            }
            if is_definition && !gives_value {
                let r = vec!['v', 'o', 'i', 'd'];
                assert(r@ == seq!['v', 'o', 'i', 'd']);
                return r;
            } else {
                let r = vec!['i', 'n', 't'];
                assert(r@ == seq!['i', 'n', 't']);
                return r;
            }
        }
        let parts = self.type_parts(t, &nodes);
        proof {
            assert(texts(parts.postfix_dims@) =~= Seq::<Seq<char>>::empty());
            assert(texts(parts.prefix_dims@) =~= parts.prefix_dims@.map_values(|d: Vec<char>| d@));
            assert(texts(parts.prefix_dims@) + texts(parts.postfix_dims@) =~= texts(parts.prefix_dims@));
        }
        parts.type_string()
    }

    fn name(&self, t: &SyntaxTree, node: usize) -> (r: Option<Vec<char>>)
        requires
            tree_ok(t, self.text.len() as int),
            node < t.nodes.len(),
        ensures
            match node_name(*t, encode_utf8(self.text@), node as int) {
                Some(n) => r matches Some(x) && x@ == n,
                None => r is None,
            },
    {
        let nodes = field_nodes(t, node, &['n', 'a', 'm', 'e']);
        let mut k: usize = 0;
        while k < nodes.len()
            invariant
                tree_ok(t, self.text.len() as int),
                forall|j: int| 0 <= j < nodes@.len() ==> node < #[trigger] nodes@[j] < t.nodes.len(),
                k <= nodes.len(),
                nodes@ == field_of(*t, node as int, seq!['n', 'a', 'm', 'e']),
                first_identifier(*t, nodes@, 0) == first_identifier(*t, nodes@, k as int),
            decreases nodes.len() - k,
        {
            if kind_is(t, nodes[k], &['i', 'd', 'e', 'n', 't', 'i', 'f', 'i', 'e', 'r']) {
                return Some(self.text_of(t, nodes[k]));
            }
            k = k + 1;
        }
        None
    }

    /// The line of a declaration's first name, else of the declaration
    fn name_line(&self, t: &SyntaxTree, node: usize) -> (r: usize)
        requires
            tree_ok(t, self.text.len() as int),
            node < t.nodes.len(),
        ensures
            r == (if field_of(*t, node as int, seq!['n', 'a', 'm', 'e']).len() > 0 {
                t.nodes@[field_of(*t, node as int, seq!['n', 'a', 'm', 'e'])[0] as int].row + 1
            } else {
                t.nodes@[node as int].row + 1
            }),
    {
        let nodes = field_nodes(t, node, &['n', 'a', 'm', 'e']);
        if nodes.len() > 0 {
            line_of(t, nodes[0])
        } else {
            line_of(t, node)
        }
    }

    fn function_kind(&self, t: &SyntaxTree, node: usize) -> (r: Vec<char>)
        requires
            tree_ok(t, self.text.len() as int),
            node < t.nodes.len(),
        ensures
            r@ == function_kind_of(*t, encode_utf8(self.text@), node as int),
    {
        match child_by_field(t, node, &['k', 'i', 'n', 'd']) {
            Some(k) => {
                return self.text_of(t, k);
            },
            None => {},
        }
        match child_by_field(t, node, &['v', 'i', 's', 'i', 'b', 'i', 'l', 'i', 't', 'y']) {
            Some(v) => {
                // Normalized order: `stock static` is `static stock`
                let words = words_of(&self.text_of(t, v));
                proof {
                    lemma_words_has(words@, seq!['p', 'u', 'b', 'l', 'i', 'c']);
                    lemma_words_has(words@, seq!['s', 't', 'a', 't', 'i', 'c']);
                    lemma_words_has(words@, seq!['s', 't', 'o', 'c', 'k']);
                }
                let mut r: Vec<char> = Vec::new();
                if has(&words, &['p', 'u', 'b', 'l', 'i', 'c']) {
                    push_all(&mut r, &['p', 'u', 'b', 'l', 'i', 'c']);
                }
                if has(&words, &['s', 't', 'a', 't', 'i', 'c']) {
                    if r.len() > 0 {
                        r.push(' ');
                    }
                    push_all(&mut r, &['s', 't', 'a', 't', 'i', 'c']);
                }
                if has(&words, &['s', 't', 'o', 'c', 'k']) {
                    if r.len() > 0 {
                        r.push(' ');
                    }
                    push_all(&mut r, &['s', 't', 'o', 'c', 'k']);
                }
                r
            },
            None => vec!['f', 'u', 'n', 'c', 't', 'i', 'o', 'n'],
        }
    }
}

/// Whether the accessors below node `i` include a getter and a setter;
/// function bodies are not searched
pub open spec fn accessors_of(t: SyntaxTree, i: int) -> (bool, bool)
    decreases t.nodes@.len() - i, 1int,
{
    if !(0 <= i < t.nodes@.len()) {
        (false, false)
    } else {
        let k = t.nodes@[i].kind@;
        if k == seq!['m', 'e', 't', 'h', 'o', 'd', 'm', 'a', 'p', '_', 'p', 'r', 'o', 'p', 'e', 'r', 't', 'y', '_', 'g',
            'e', 't', 't', 'e', 'r'] || k == seq!['g', 'e', 't'] {
            (true, false)
        } else if k == seq!['m', 'e', 't', 'h', 'o', 'd', 'm', 'a', 'p', '_', 'p', 'r', 'o', 'p', 'e', 'r', 't', 'y', '_',
            's', 'e', 't', 't', 'e', 'r'] || k == seq!['s', 'e', 't'] {
            (false, true)
        } else if k == seq!['b', 'l', 'o', 'c', 'k'] || i >= t.children@.len() {
            (false, false)
        } else {
            accessors_in(t, i, t.children@[i]@.len() as int)
        }
    }
}

/// The accessors below the first `k` children of node `i`
pub open spec fn accessors_in(t: SyntaxTree, i: int, k: int) -> (bool, bool)
    decreases t.nodes@.len() - i, 0int, k,
{
    if k <= 0 || !(0 <= i < t.children@.len()) || k > t.children@[i]@.len() {
        (false, false)
    } else {
        let (g, s) = accessors_in(t, i, k - 1);
        let c = t.children@[i]@[k - 1] as int;
        if i < c < t.nodes@.len() {
            let (g2, s2) = accessors_of(t, c);
            (g || g2, s || s2)
        } else {
            (g, s)
        }
    }
}

fn accessors(t: &SyntaxTree, i: usize) -> (r: (bool, bool))
    requires
        children_ok(t),
        i < t.nodes.len(),
    ensures
        r == accessors_of(*t, i as int),
    decreases t.nodes.len() - i,
{
    if kind_is(t, i, &['m', 'e', 't', 'h', 'o', 'd', 'm', 'a', 'p', '_', 'p', 'r', 'o', 'p', 'e', 'r', 't', 'y', '_', 'g',
        'e', 't', 't', 'e', 'r']) || kind_is(t, i, &['g', 'e', 't']) {
        return (true, false);
    }
    if kind_is(t, i, &['m', 'e', 't', 'h', 'o', 'd', 'm', 'a', 'p', '_', 'p', 'r', 'o', 'p', 'e', 'r', 't', 'y', '_', 's',
        'e', 't', 't', 'e', 'r']) || kind_is(t, i, &['s', 'e', 't']) {
        return (false, true);
    }
    if kind_is(t, i, &['b', 'l', 'o', 'c', 'k']) {
        return (false, false);
    }
    let cs = &t.children[i];
    let mut getter = false;
    let mut setter = false;
    let mut k: usize = 0;
    while k < cs.len()
        invariant
            children_ok(t),
            i < t.nodes.len(),
            cs == &t.children@[i as int],
            k <= cs.len(),
            (getter, setter) == accessors_in(*t, i as int, k as int),
            accessors_of(*t, i as int) == accessors_in(*t, i as int, cs@.len() as int),
        decreases cs.len() - k,
    {
        let c = cs[k];
        assert(i < t.children@[i as int]@[k as int] < t.nodes@.len());
        let (g, s) = accessors(t, c);
        getter = getter || g;
        setter = setter || s;
        k = k + 1;
    }
    (getter, setter)
}

impl<'a> Extractor<'a> {
    /// Walks the top level declarations below the root, then records the
    /// defines and fixes the rest parameters of foreign types
    #[verifier::rlimit(40)]
    pub fn run(&mut self, t: &SyntaxTree)
        requires
            tree_ok(t, old(self).text.len() as int),
            t.nodes.len() >= 1,
            strand_keyed(old(self).strand),
        ensures
            strand_keyed(final(self).strand),
            strand_grows(old(self).strand, final(self).strand),
            forall|j: int| 0 <= j < t.children@[0]@.len() ==> documented(
                *t,
                encode_utf8(old(self).text@),
                #[trigger] t.children@[0]@[j] as int,
                final(self).strand,
            ),
            old(self).functions_extracted(*t, final(self).strand.functions),
            old(self).enums_recorded(*t, final(self).strand.enums, t.children@[0]@.len() as int),
            old(self).typedefs_recorded(*t, final(self).strand.typedefs, t.children@[0]@.len() as int),
            old(self).members_extracted(*t, final(self).strand),
            old(self).constants_hold(*t, anon_entries(*t, encode_utf8(old(self).text@), t.children@[0]@.len() as int),
                old(self).strand.constants, final(self).strand.constants),
            forall|n: Seq<char>| #[trigger] live_define(old(self).pp.macros@, n, old(self).pp.macros@.len() as int) is None
                ==> final(self).strand.defines.get_spec(n) == old(self).strand.defines.get_spec(n),
    {
        let ghost s0 = *self;
        let cs = &t.children[0];
        let mut k: usize = 0;
        while k < cs.len()
            invariant
                strand_keyed(self.strand),
                strand_grows(old(self).strand, self.strand),
                self.text == old(self).text,
                forall|j: int| 0 <= j < k ==> documented(*t, encode_utf8(old(self).text@), #[trigger] t.children@[0]@[j] as int, self.strand),
                self.source == s0.source,
                self.pp == s0.pp,
                self.comments == s0.comments,
                s0.text == old(self).text,
                s0.functions_recorded(*t, self.strand.functions, k as int),
                s0.enums_recorded(*t, self.strand.enums, k as int),
                s0.typedefs_recorded(*t, self.strand.typedefs, k as int),
                s0.members_recorded(*t, self.strand, k as int),
                s0.constants_hold(*t, anon_entries(*t, encode_utf8(s0.text@), k as int), s0.strand.constants,
                    self.strand.constants),
                self.strand.defines == s0.strand.defines,
                self.line_starts == s0.line_starts,
                *old(self) == s0,
                tree_ok(t, self.text.len() as int),
                cs == &t.children@[0],
                t.nodes.len() >= 1,
                k <= cs.len(),
            decreases cs.len() - k,
        {
            let node = cs[k];
            assert(0 < t.children@[0]@[k as int] < t.nodes@.len());
            let ghost before = self.strand;
            let ghost pre = *self;
            if kind_is(t, node, &['f', 'u', 'n', 'c', 't', 'i', 'o', 'n', '_', 'd', 'e', 'c', 'l', 'a', 'r', 'a', 't', 'i',
                'o', 'n']) || kind_is(t, node, &['f', 'u', 'n', 'c', 't', 'i', 'o', 'n', '_', 'd', 'e', 'f', 'i', 'n',
                'i', 't', 'i', 'o', 'n']) {
                self.function(t, node);
            } else if kind_is(t, node, &['e', 'n', 'u', 'm']) {
                self.enumeration(t, node);
            } else if kind_is(t, node, &['e', 'n', 'u', 'm', '_', 's', 't', 'r', 'u', 'c', 't']) {
                self.enum_struct(t, node);
            } else if kind_is(t, node, &['m', 'e', 't', 'h', 'o', 'd', 'm', 'a', 'p']) {
                self.methodmap(t, node);
            } else if kind_is(t, node, &['t', 'y', 'p', 'e', 'd', 'e', 'f']) {
                self.typedef(t, node);
            } else if kind_is(t, node, &['t', 'y', 'p', 'e', 's', 'e', 't']) {
                self.typeset(t, node);
            } else if kind_is(t, node, &['f', 'u', 'n', 'c', 't', 'a', 'g']) {
                self.functag(t, node);
            } else if kind_is(t, node, &['f', 'u', 'n', 'c', 'e', 'n', 'u', 'm']) {
                self.funcenum(t, node);
            } else if kind_is(t, node, &['s', 't', 'r', 'u', 'c', 't']) {
                self.structure(t, node);
            }
            proof {
                let kk = t.nodes@[node as int].kind@;
                if kk == seq!['e', 'n', 'u', 'm', '_', 's', 't', 'r', 'u', 'c', 't'] {
                    assert(kk.len() == 11);
                    assert(kk != seq!['e', 'n', 'u', 'm']);
                }
                assert(documented(*t, encode_utf8(old(self).text@), node as int, self.strand));
                let bytes = encode_utf8(s0.text@);
                let a = anon_entries(*t, bytes, k as int);
                assert(t.children@[0]@[k as int] == node);
                if kk == seq!['e', 'n', 'u', 'm'] && node_name(*t, bytes, node as int) is None {
                    let es = enum_entries(*t, bytes, node as int);
                    assert(anon_entries(*t, bytes, k + 1) == a + es);
                    assert(pre.constants_hold(*t, es, before.constants, self.strand.constants));
                    assert(s0.constants_hold(*t, es, before.constants, self.strand.constants));
                    s0.lemma_constants_concat(*t, a, es, s0.strand.constants, before.constants, self.strand.constants);
                } else {
                    assert(anon_entries(*t, bytes, k + 1) == a + Seq::<int>::empty());
                    assert(a + Seq::<int>::empty() =~= a);
                    assert(self.strand.constants == before.constants);
                }
                assert forall|j: int|
                    0 <= j < k + 1 && #[trigger] function_last(*t, bytes, j, k + 1) implies (self.strand.functions.get_spec(
                        node_name(*t, bytes, t.children@[0]@[j] as int)->0,
                    ) matches Some(f) && s0.function_holds(
                        *t,
                        t.children@[0]@[j] as int,
                        node_name(*t, bytes, t.children@[0]@[j] as int)->0,
                        f,
                    )) by {
                    if j < k {
                        assert(function_last(*t, bytes, j, k as int));
                        if is_function_node(*t, node as int) && node_name(*t, bytes, node as int) is Some {
                            assert(node_name(*t, bytes, node as int) != node_name(*t, bytes, t.children@[0]@[j] as int));
                        }
                    }
                }
                assert forall|j: int|
                    0 <= j < k + 1 && #[trigger] enum_last(*t, bytes, j, k + 1) implies (self.strand.enums.get_spec(
                        node_name(*t, bytes, t.children@[0]@[j] as int)->0,
                    ) matches Some(en) && s0.enum_holds(
                        *t,
                        t.children@[0]@[j] as int,
                        node_name(*t, bytes, t.children@[0]@[j] as int)->0,
                        en,
                    )) by {
                    if j < k {
                        assert(enum_last(*t, bytes, j, k as int));
                        if t.nodes@[node as int].kind@ == seq!['e', 'n', 'u', 'm'] && node_name(*t, bytes, node as int) is Some {
                            assert(node_name(*t, bytes, node as int) != node_name(*t, bytes, t.children@[0]@[j] as int));
                        }
                    }
                }
                let f_before = before.functions;
                assert forall|j: int|
                    0 <= j < k + 1 && #[trigger] methodmap_last(*t, bytes, j, k + 1) implies (self.strand.methodmaps.get_spec(node_name(*t, bytes, t.children@[0]@[j] as int)->0)
                    matches Some(mm) && s0.methodmap_at(*t, j, mm)) by {
                    if j < k {
                        assert(methodmap_last(*t, bytes, j, k as int));
                        if t.nodes@[node as int].kind@ == seq!['m', 'e', 't', 'h', 'o', 'd', 'm', 'a', 'p'] && node_name(*t, bytes, node as int) is Some {
                            assert(node_name(*t, bytes, node as int) != node_name(*t, bytes, t.children@[0]@[j] as int));
                        }
                    } else {
                        assert(s0.functions_recorded(*t, f_before, j));
                    }
                }
                assert forall|j: int|
                    0 <= j < k + 1 && #[trigger] enum_struct_last(*t, bytes, j, k + 1) implies (self.strand.enumstructs.get_spec(node_name(*t, bytes, t.children@[0]@[j] as int)->0)
                    matches Some(es) && s0.enum_struct_holds(*t, t.children@[0]@[j] as int, node_name(*t, bytes, t.children@[0]@[j] as int)->0, es)) by {
                    if j < k {
                        assert(enum_struct_last(*t, bytes, j, k as int));
                        if (t.nodes@[node as int].kind@ == seq!['e', 'n', 'u', 'm', '_', 's', 't', 'r', 'u', 'c', 't'] || t.nodes@[node as int].kind@ == seq!['s', 't', 'r', 'u', 'c', 't']) && node_name(*t, bytes, node as int) is Some {
                            assert(node_name(*t, bytes, node as int) != node_name(*t, bytes, t.children@[0]@[j] as int));
                        }
                    }
                }
                assert forall|j: int|
                    0 <= j < k + 1 && #[trigger] typeset_last(*t, bytes, j, k + 1) implies (self.strand.typesets.get_spec(node_name(*t, bytes, t.children@[0]@[j] as int)->0)
                    matches Some(ts) && s0.typeset_holds(*t, t.children@[0]@[j] as int, node_name(*t, bytes, t.children@[0]@[j] as int)->0, ts)) by {
                    if j < k {
                        assert(typeset_last(*t, bytes, j, k as int));
                        if (t.nodes@[node as int].kind@ == seq!['t', 'y', 'p', 'e', 's', 'e', 't'] || t.nodes@[node as int].kind@ == seq!['f', 'u', 'n', 'c', 'e', 'n', 'u', 'm']) && node_name(*t, bytes, node as int) is Some {
                            assert(node_name(*t, bytes, node as int) != node_name(*t, bytes, t.children@[0]@[j] as int));
                        }
                    }
                }
                assert forall|j: int|
                    0 <= j < k + 1 && #[trigger] typedef_last(*t, bytes, j, k + 1) implies (self.strand.typedefs.get_spec(
                        node_name(*t, bytes, t.children@[0]@[j] as int)->0,
                    ) matches Some(td) && s0.typedef_recorded(
                        (t.nodes@[t.children@[0]@[j] as int].row + 1) as usize,
                        node_name(*t, bytes, t.children@[0]@[j] as int)->0,
                        typedef_node_type(*t, bytes, encode_utf8(s0.source@), *s0.pp, t.children@[0]@[j] as int),
                        td,
                    )) by {
                    if j < k {
                        assert(typedef_last(*t, bytes, j, k as int));
                        if is_typedef_node(*t, node as int) && node_name(*t, bytes, node as int) is Some {
                            assert(node_name(*t, bytes, node as int) != node_name(*t, bytes, t.children@[0]@[j] as int));
                        }
                    }
                }
                assert forall|j: int| 0 <= j < k implies documented(
                    *t,
                    encode_utf8(old(self).text@),
                    #[trigger] t.children@[0]@[j] as int,
                    self.strand,
                ) by {
                    lemma_documented_grows(*t, encode_utf8(old(self).text@), t.children@[0]@[j] as int, before, self.strand);
                }
            }
            k = k + 1;
        }
        let ghost walked = self.strand;
        self.defines();
        let ghost defined = self.strand;
        self.space_foreign_rest_types();
        proof {
            let bytes = encode_utf8(s0.text@);
            let len = t.children@[0]@.len() as int;
            assert forall|j: int| 0 <= j < len && #[trigger] methodmap_last(*t, bytes, j, len) implies (
            self.strand.methodmaps.get_spec(node_name(*t, bytes, t.children@[0]@[j] as int)->0) matches Some(mm) && exists|mm0: MethodMap, local: Seq<Seq<char>>|
                #![trigger methodmap_fixed(mm0, mm, local)]
                s0.methodmap_at(*t, j, mm0) && methodmap_fixed(mm0, mm, local)) by {
                let n = node_name(*t, bytes, t.children@[0]@[j] as int)->0;
                assert(walked.methodmaps.contains_spec(n));
                assert(defined.methodmaps.contains_spec(n));
                let mm0 = defined.methodmaps.get_spec(n)->0;
                let mm = self.strand.methodmaps.get_spec(n)->0;
                assert(methodmap_fixed(mm0, mm, local_names(defined)));
                assert(s0.methodmap_at(*t, j, mm0));
            }
            assert forall|j: int| 0 <= j < len && #[trigger] enum_struct_last(*t, bytes, j, len) implies (
            self.strand.enumstructs.get_spec(node_name(*t, bytes, t.children@[0]@[j] as int)->0) matches Some(es) && exists|es0: EnumStruct, local: Seq<Seq<char>>|
                #![trigger enumstruct_fixed(es0, es, local)]
                s0.enum_struct_holds(*t, t.children@[0]@[j] as int, node_name(*t, bytes, t.children@[0]@[j] as int)->0, es0) && enumstruct_fixed(es0, es, local)) by {
                let n = node_name(*t, bytes, t.children@[0]@[j] as int)->0;
                assert(walked.enumstructs.contains_spec(n));
                assert(defined.enumstructs.contains_spec(n));
                let es0 = defined.enumstructs.get_spec(n)->0;
                let es = self.strand.enumstructs.get_spec(n)->0;
                assert(enumstruct_fixed(es0, es, local_names(defined)));
                assert(s0.enum_struct_holds(*t, t.children@[0]@[j] as int, n, es0));
            }
            assert(old(self).members_extracted(*t, self.strand));
            let bytes = encode_utf8(s0.text@);
            let len = t.children@[0]@.len() as int;
            assert forall|j: int| 0 <= j < len && #[trigger] function_last(*t, bytes, j, len) implies (
            self.strand.functions.get_spec(node_name(*t, bytes, t.children@[0]@[j] as int)->0) matches Some(g)
                && exists|f: Function, local: Seq<Seq<char>>|
                old(self).function_holds(*t, t.children@[0]@[j] as int, node_name(*t, bytes, t.children@[0]@[j] as int)->0, f)
                    && function_fixed(f, local, g)) by {
                let n = node_name(*t, bytes, t.children@[0]@[j] as int)->0;
                assert(walked.functions.contains_spec(n));
                assert(defined.functions.contains_spec(n));
                let f = defined.functions.get_spec(n)->0;
                let g = self.strand.functions.get_spec(n)->0;
                assert(function_fixed(f, local_names(defined), g));
                assert(old(self).function_holds(*t, t.children@[0]@[j] as int, n, f));
            }
            assert forall|j: int| 0 <= j < t.children@[0]@.len() implies documented(
                *t,
                encode_utf8(old(self).text@),
                #[trigger] t.children@[0]@[j] as int,
                self.strand,
            ) by {
                lemma_documented_grows(*t, encode_utf8(old(self).text@), t.children@[0]@[j] as int, walked, self.strand);
            }
        }
    }

    /// Legacy `struct`s such as `Plugin` and `Extension` are documented as
    /// enum structs
    fn structure(&mut self, t: &SyntaxTree, node: usize)
        requires
            tree_ok(t, old(self).text.len() as int),
            node < t.nodes.len(),
            strand_keyed(old(self).strand),
        ensures
            final(self).text == old(self).text,
            final(self).strand.methodmaps == old(self).strand.methodmaps,
            final(self).strand.constants == old(self).strand.constants,
            final(self).strand.defines == old(self).strand.defines,
            final(self).strand.typesets == old(self).strand.typesets,
            final(self).source == old(self).source,
            final(self).pp == old(self).pp,
            final(self).comments == old(self).comments,
            final(self).line_starts == old(self).line_starts,
            final(self).strand.functions == old(self).strand.functions,
            final(self).strand.enums == old(self).strand.enums,
            final(self).strand.typedefs == old(self).strand.typedefs,
            strand_keyed(final(self).strand),
            strand_grows(old(self).strand, final(self).strand),
            node_name(*t, encode_utf8(old(self).text@), node as int) matches Some(n) ==> final(self).strand.enumstructs.contains_spec(n),
            match node_name(*t, encode_utf8(old(self).text@), node as int) {
                Some(n) => {
                    &&& final(self).strand.enumstructs.get_spec(n) matches Some(es) && es.declaration.name@ == n
                        && old(self).documents((t.nodes@[node as int].row + 1) as usize, es.declaration.documentation)
                        && old(self).struct_fields_hold(
                            *t,
                            named_struct_fields(*t, encode_utf8(old(self).text@), node as int, t.children@[node as int]@.len() as int),
                            es.fields,
                        ) && old(self).es_methods_hold(*t, Seq::empty(), es.methods)
                    &&& forall|k: Seq<char>| k != n ==> #[trigger] final(self).strand.enumstructs.get_spec(k) == old(self).strand.enumstructs.get_spec(k)
                },
                None => final(self).strand == old(self).strand,
            },
    {
        let ghost s0 = *self;
        let ghost bytes = encode_utf8(self.text@);
        let name = match self.name(t, node) {
            Some(n) => n,
            None => return,
        };
        let mut es = EnumStruct {
            declaration: self.declaration(&name, line_of(t, node)),
            methods: SymbolMap::new(),
            fields: SymbolMap::new(),
        };
        let ghost decl0 = es.declaration;
        let ghost methods0 = es.methods;
        let cs = &t.children[node];
        let mut k: usize = 0;
        proof {
            assert(named_slots(*t, bytes, Seq::<int>::empty()) == Map::<Seq<char>, int>::empty());
        }
        while k < cs.len()
            invariant
                *self == s0,
                bytes == encode_utf8(self.text@),
                strand_keyed(self.strand),
                keyed(es.methods),
                keyed(es.fields),
                es.declaration == decl0,
                es.declaration.name@ == name@,
                es.methods == methods0,
                s0.es_methods_hold(*t, Seq::empty(), es.methods),
                tree_ok(t, self.text.len() as int),
                node < t.nodes.len(),
                cs == &t.children@[node as int],
                k <= cs.len(),
                s0.struct_fields_hold(*t, named_struct_fields(*t, bytes, node as int, k as int), es.fields),
            decreases cs.len() - k,
        {
            let member = cs[k];
            assert(node < t.children@[node as int]@[k as int] < t.nodes@.len());
            let ghost fl0 = named_struct_fields(*t, bytes, node as int, k as int);
            k = k + 1;
            if !(kind_is(t, member, &['s', 't', 'r', 'u', 'c', 't', '_', 'f', 'i', 'e', 'l', 'd'])
                || kind_is(t, member, &['o', 'l', 'd', '_', 's', 't', 'r', 'u', 'c', 't', '_', 'f', 'i', 'e', 'l', 'd'])) {
                assert(named_struct_fields(*t, bytes, node as int, k as int) == fl0);
                continue;
            }
            let fname = match self.name(t, member) {
                Some(n) => n,
                None => {
                    assert(named_struct_fields(*t, bytes, node as int, k as int) == fl0);
                    continue;
                },
            };
            let types = field_nodes(t, member, &['t', 'y', 'p', 'e']);
            let mut parts = self.type_parts(t, &types);
            let ghost p0 = parts;
            let mut seen_name = false;
            let ms = &t.children[member];
            let mut m: usize = 0;
            while m < ms.len()
                invariant
                    *self == s0,
                    bytes == encode_utf8(self.text@),
                    strand_keyed(self.strand),
                    tree_ok(t, self.text.len() as int),
                    member < t.nodes.len(),
                    ms == &t.children@[member as int],
                    m <= ms.len(),
                    parts.base == p0.base,
                    parts.prefix_dims == p0.prefix_dims,
                    parts.by_ref == p0.by_ref,
                    (parts.is_const, texts(parts.postfix_dims@), seen_name) == struct_field_scan(*t, bytes, *self.pp, member as int, m as int),
                decreases ms.len() - m,
            {
                let c = ms[m];
                assert(member < t.children@[member as int]@[m as int] < t.nodes@.len());
                let ghost before = texts(parts.postfix_dims@);
                if kind_is(t, c, &['c', 'o', 'n', 's', 't']) {
                    parts.is_const = true;
                } else if seen_name && Self::is_dimension(t, c) {
                    let d = self.dim(t, c);
                    parts.postfix_dims.push(d);
                    assert(texts(parts.postfix_dims@) =~= before.push(d@));
                }
                if field_is(t, c, &['n', 'a', 'm', 'e']) {
                    seen_name = true;
                }
                m = m + 1;
            }
            proof {
                assert(texts(parts.prefix_dims@) =~= parts.prefix_dims@.map_values(|d: Vec<char>| d@));
            }
            let ty = parts.type_string();
            let field = Field { declaration: self.declaration(&fname, line_of(t, member)), ty: to_string(&ty) };
            let ghost fv = field;
            proof {
                assert(s0.struct_field_holds(*t, member as int, fname@, fv));
                assert(named_struct_fields(*t, bytes, node as int, k as int) == fl0.push(member as int));
                assert(fl0.push(member as int).drop_last() =~= fl0);
            }
            let ghost f0 = es.fields;
            insert_keyed(&mut es.fields, to_string(&fname), field);
            proof {
                s0.lemma_struct_field_step(*t, fl0.push(member as int), f0, es.fields, fv);
            }
        }
        insert_keyed(&mut self.strand.enumstructs, to_string(&name), es);
    }

    fn function(&mut self, t: &SyntaxTree, node: usize)
        requires
            tree_ok(t, old(self).text.len() as int),
            node < t.nodes.len(),
            strand_keyed(old(self).strand),
        ensures
            final(self).text == old(self).text,
            final(self).strand.enumstructs == old(self).strand.enumstructs,
            final(self).strand.constants == old(self).strand.constants,
            final(self).strand.defines == old(self).strand.defines,
            final(self).strand.typesets == old(self).strand.typesets,
            strand_keyed(final(self).strand),
            strand_grows(old(self).strand, final(self).strand),
            node_name(*t, encode_utf8(old(self).text@), node as int) matches Some(n) ==> final(self).strand.functions.contains_spec(n),
            final(self).source == old(self).source,
            final(self).pp == old(self).pp,
            final(self).comments == old(self).comments,
            final(self).line_starts == old(self).line_starts,
            final(self).strand.methodmaps == old(self).strand.methodmaps,
            final(self).strand.enums == old(self).strand.enums,
            final(self).strand.typedefs == old(self).strand.typedefs,
            match node_name(*t, encode_utf8(old(self).text@), node as int) {
                Some(n) => {
                    &&& final(self).strand.functions.get_spec(n) matches Some(f) && old(self).function_holds(*t, node as int, n, f)
                    &&& forall|k: Seq<char>| k != n ==> #[trigger] final(self).strand.functions.get_spec(k) == old(self).strand.functions.get_spec(k)
                },
                None => final(self).strand == old(self).strand,
            },
    {
        let name = match self.name(t, node) {
            Some(n) => n,
            None => return,
        };
        let params = child_by_field(t, node, &['p', 'a', 'r', 'a', 'm', 'e', 't', 'e', 'r', 's']);
        let f = Function {
            declaration: self.declaration(&name, self.name_line(t, node)),
            kind: to_string(&self.function_kind(t, node)),
            return_type: to_string(&self.return_type(t, node)),
            arguments: self.parameters(t, params),
        };
        insert_keyed(&mut self.strand.functions, to_string(&name), f);
    }

    #[verifier::rlimit(40)]
    fn enumeration(&mut self, t: &SyntaxTree, node: usize)
        requires
            tree_ok(t, old(self).text.len() as int),
            node < t.nodes.len(),
            strand_keyed(old(self).strand),
        ensures
            final(self).text == old(self).text,
            final(self).strand.methodmaps == old(self).strand.methodmaps,
            final(self).strand.enumstructs == old(self).strand.enumstructs,
            final(self).strand.defines == old(self).strand.defines,
            final(self).strand.typesets == old(self).strand.typesets,
            final(self).source == old(self).source,
            final(self).pp == old(self).pp,
            final(self).comments == old(self).comments,
            final(self).line_starts == old(self).line_starts,
            final(self).strand.functions == old(self).strand.functions,
            final(self).strand.typedefs == old(self).strand.typedefs,
            strand_keyed(final(self).strand),
            strand_grows(old(self).strand, final(self).strand),
            node_name(*t, encode_utf8(old(self).text@), node as int) matches Some(n) ==> final(self).strand.enums.contains_spec(n),
            match node_name(*t, encode_utf8(old(self).text@), node as int) {
                Some(n) => {
                    &&& final(self).strand.enums.get_spec(n) matches Some(en) && en.declaration.name@ == n
                        && old(self).documents((t.nodes@[node as int].row + 1) as usize, en.declaration.documentation)
                        && old(self).entries_hold(*t, enum_entries(*t, encode_utf8(old(self).text@), node as int), en.entries)
                    &&& forall|k: Seq<char>| k != n ==> #[trigger] final(self).strand.enums.get_spec(k) == old(self).strand.enums.get_spec(k)
                    &&& final(self).strand.constants == old(self).strand.constants
                },
                None => {
                    &&& old(self).constants_hold(
                        *t,
                        enum_entries(*t, encode_utf8(old(self).text@), node as int),
                        old(self).strand.constants,
                        final(self).strand.constants,
                    )
                    &&& final(self).strand.enums == old(self).strand.enums
                },
            },
    {
        let ghost s0 = *self;
        let ghost bytes = encode_utf8(self.text@);
        let ghost ns = enum_entries(*t, bytes, node as int);
        let mut entries: Vec<(Vec<char>, Entry)> = Vec::new();
        match child_by_field(t, node, &['e', 'n', 't', 'r', 'i', 'e', 's']) {
            Some(list) => {
                let cs = &t.children[list];
                let mut k: usize = 0;
                while k < cs.len()
                    invariant
                        *self == s0,
                        bytes == encode_utf8(self.text@),
                        forall|j: int| 0 <= j < entries@.len() ==> (#[trigger] entries@[j]).1.declaration.name@ == entries@[j].0@,
                        tree_ok(t, self.text.len() as int),
                        list < t.nodes.len(),
                        cs == &t.children@[list as int],
                        k <= cs.len(),
                        entries@.len() == entry_nodes(*t, bytes, list as int, k as int).len(),
                        forall|q: int| 0 <= q < entries@.len() ==> {
                            let e = entry_nodes(*t, bytes, list as int, k as int)[q];
                            &&& node_name(*t, bytes, e) == Some((#[trigger] entries@[q]).0@)
                            &&& s0.entry_holds(*t, e, entries@[q].0@, entries@[q].1)
                        },
                    decreases cs.len() - k,
                {
                    let e = cs[k];
                    assert(list < t.children@[list as int]@[k as int] < t.nodes@.len());
                    let ghost before = entries@;
                    let ghost en0 = entry_nodes(*t, bytes, list as int, k as int);
                    k = k + 1;
                    if !kind_is(t, e, &['e', 'n', 'u', 'm', '_', 'e', 'n', 't', 'r', 'y']) {
                        assert(entry_nodes(*t, bytes, list as int, k as int) == en0);
                        continue;
                    }
                    let name = match self.name(t, e) {
                        Some(n) => n,
                        None => {
                            assert(entry_nodes(*t, bytes, list as int, k as int) == en0);
                            continue;
                        },
                    };
                    let values = field_nodes(t, e, &['v', 'a', 'l', 'u', 'e']);
                    let mut value: Option<String> = None;
                    let mut m: usize = 0;
                    while m < values.len()
                        invariant
                            *self == s0,
                            bytes == encode_utf8(self.text@),
                            tree_ok(t, self.text.len() as int),
                            forall|j: int| 0 <= j < values@.len() ==> e < #[trigger] values@[j] < t.nodes.len(),
                            m <= values.len(),
                            crate::chronicle::opt_text(value) == entry_value(*t, bytes, *self.pp, values@, m as int),
                        decreases values.len() - m,
                    {
                        if t.nodes[values[m]].named {
                            value = Some(to_string(&self.render_expr(t, values[m])));
                        }
                        m = m + 1;
                    }
                    let line = self.name_line(t, e);
                    let entry = Entry { declaration: self.declaration(&name, line), value: value };
                    entries.push((name, entry));
                    proof {
                        let en1 = entry_nodes(*t, bytes, list as int, k as int);
                        assert(en1 == en0.push(e as int));
                        assert forall|q: int| 0 <= q < entries@.len() implies {
                            let e2 = en1[q];
                            &&& node_name(*t, bytes, e2) == Some((#[trigger] entries@[q]).0@)
                            &&& s0.entry_holds(*t, e2, entries@[q].0@, entries@[q].1)
                        } by {
                            if q < before.len() {
                                assert(entries@[q] == before[q]);
                            }
                        }
                    }
                }
                proof {
                    assert(entry_nodes(*t, bytes, list as int, k as int) == ns);
                }
            },
            None => {
                assert(ns == Seq::<int>::empty());
            },
        }
        let ghost all = entries@;
        let ghost mut p: int = 0;
        proof {
            assert(ns.take(0) =~= Seq::<int>::empty());
        }
        match self.name(t, node) {
            None => {
                let ghost c0 = self.strand.constants;
                while entries.len() > 0
                    invariant
                        self.strand.methodmaps == old(self).strand.methodmaps,
                        self.strand.enumstructs == old(self).strand.enumstructs,
                        self.strand.defines == old(self).strand.defines,
                        self.strand.typesets == old(self).strand.typesets,
                        self.strand.functions == old(self).strand.functions,
                        self.strand.typedefs == old(self).strand.typedefs,
                        self.source == old(self).source,
                        self.pp == old(self).pp,
                        self.comments == old(self).comments,
                        self.line_starts == old(self).line_starts,
                        self.text == old(self).text,
                        self.strand.enums == old(self).strand.enums,
                        self.strand.typedefs == old(self).strand.typedefs,
                        c0 == old(self).strand.constants,
                        *old(self) == s0,
                        bytes == encode_utf8(s0.text@),
                        strand_grows(old(self).strand, self.strand),
                        strand_keyed(self.strand),
                        0 <= p <= all.len(),
                        all.len() == ns.len(),
                        entries@ == all.subrange(p, all.len() as int),
                        forall|q: int| 0 <= q < all.len() ==> {
                            &&& node_name(*t, bytes, ns[q]) == Some((#[trigger] all[q]).0@)
                            &&& s0.entry_holds(*t, ns[q], all[q].0@, all[q].1)
                        },
                        forall|j: int| 0 <= j < entries@.len() ==> (#[trigger] entries@[j]).1.declaration.name@ == entries@[j].0@,
                        s0.constants_hold(*t, ns.take(p), c0, self.strand.constants),
                    decreases entries.len(),
                {
                    assert(entries@[0] == all[p]);
                    let (name, e) = entries.remove(0);
                    let ghost cm = self.strand.constants;
                    let ghost ev = e;
                    insert_keyed(&mut self.strand.constants, to_string(&name), Constant { declaration: e.declaration });
                    proof {
                        assert(ns.take(p + 1).drop_last() =~= ns.take(p));
                        assert(ns.take(p + 1).last() == ns[p]);
                        s0.lemma_constants_step(*t, ns.take(p + 1), c0, cm, self.strand.constants, ev);
                        p = p + 1;
                    }
                }
                proof {
                    assert(ns.take(p) =~= ns);
                }
            },
            Some(name) => {
                let mut map: SymbolMap<Entry> = SymbolMap::new();
                proof {
                    assert forall|key: Seq<char>| #[trigger] map.contains_spec(key) == named_slots(*t, bytes, ns.take(0)).contains_key(key) by {}
                }
                while entries.len() > 0
                    invariant
                        self.strand.functions == old(self).strand.functions,
                        self.strand.typedefs == old(self).strand.typedefs,
                        self.source == old(self).source,
                        self.pp == old(self).pp,
                        self.comments == old(self).comments,
                        self.line_starts == old(self).line_starts,
                        *old(self) == s0,
                        *self == s0,
                        bytes == encode_utf8(s0.text@),
                        strand_grows(old(self).strand, self.strand),
                        keyed(map),
                        0 <= p <= all.len(),
                        all.len() == ns.len(),
                        entries@ == all.subrange(p, all.len() as int),
                        forall|q: int| 0 <= q < all.len() ==> {
                            &&& node_name(*t, bytes, ns[q]) == Some((#[trigger] all[q]).0@)
                            &&& s0.entry_holds(*t, ns[q], all[q].0@, all[q].1)
                        },
                        forall|j: int| 0 <= j < entries@.len() ==> (#[trigger] entries@[j]).1.declaration.name@ == entries@[j].0@,
                        s0.entries_hold(*t, ns.take(p), map),
                    decreases entries.len(),
                {
                    assert(entries@[0] == all[p]);
                    let (ename, e) = entries.remove(0);
                    let ghost m0 = map;
                    let ghost ev = e;
                    insert_keyed(&mut map, to_string(&ename), e);
                    proof {
                        assert(ns.take(p + 1).drop_last() =~= ns.take(p));
                        assert(ns.take(p + 1).last() == ns[p]);
                        s0.lemma_entries_step(*t, ns.take(p + 1), m0, map, ev);
                        p = p + 1;
                    }
                }
                proof {
                    assert(ns.take(p) =~= ns);
                }
                let en = Enumeration { declaration: self.declaration(&name, line_of(t, node)), entries: map };
                insert_keyed(&mut self.strand.enums, to_string(&name), en);
            },
        }
    }

    #[verifier::rlimit(40)]
    fn enum_struct(&mut self, t: &SyntaxTree, node: usize)
        requires
            tree_ok(t, old(self).text.len() as int),
            node < t.nodes.len(),
            strand_keyed(old(self).strand),
        ensures
            final(self).text == old(self).text,
            final(self).strand.methodmaps == old(self).strand.methodmaps,
            final(self).strand.constants == old(self).strand.constants,
            final(self).strand.defines == old(self).strand.defines,
            final(self).strand.typesets == old(self).strand.typesets,
            final(self).source == old(self).source,
            final(self).pp == old(self).pp,
            final(self).comments == old(self).comments,
            final(self).line_starts == old(self).line_starts,
            final(self).strand.functions == old(self).strand.functions,
            final(self).strand.enums == old(self).strand.enums,
            final(self).strand.typedefs == old(self).strand.typedefs,
            strand_keyed(final(self).strand),
            strand_grows(old(self).strand, final(self).strand),
            node_name(*t, encode_utf8(old(self).text@), node as int) matches Some(n) ==> final(self).strand.enumstructs.contains_spec(n),
            match node_name(*t, encode_utf8(old(self).text@), node as int) {
                Some(n) => {
                    &&& final(self).strand.enumstructs.get_spec(n) matches Some(es) && es.declaration.name@ == n
                        && old(self).documents((t.nodes@[node as int].row + 1) as usize, es.declaration.documentation)
                        && old(self).es_fields_hold(
                            *t,
                            named_of_kind(*t, encode_utf8(old(self).text@), node as int, es_field_kind(), t.children@[node as int]@.len() as int),
                            es.fields,
                        ) && old(self).es_methods_hold(
                            *t,
                            named_of_kind(*t, encode_utf8(old(self).text@), node as int, es_method_kind(), t.children@[node as int]@.len() as int),
                            es.methods,
                        )
                    &&& forall|k: Seq<char>| k != n ==> #[trigger] final(self).strand.enumstructs.get_spec(k) == old(self).strand.enumstructs.get_spec(k)
                },
                None => final(self).strand == old(self).strand,
            },
    {
        let ghost s0 = *self;
        let ghost bytes = encode_utf8(self.text@);
        let name = match self.name(t, node) {
            Some(n) => n,
            None => return,
        };
        let mut es = EnumStruct {
            declaration: self.declaration(&name, line_of(t, node)),
            methods: SymbolMap::new(),
            fields: SymbolMap::new(),
        };
        let ghost decl0 = es.declaration;
        let cs = &t.children[node];
        let mut k: usize = 0;
        proof {
            assert(named_slots(*t, bytes, Seq::<int>::empty()) == Map::<Seq<char>, int>::empty());
        }
        while k < cs.len()
            invariant
                *self == s0,
                bytes == encode_utf8(self.text@),
                strand_keyed(self.strand),
                keyed(es.methods),
                keyed(es.fields),
                es.declaration == decl0,
                es.declaration.name@ == name@,
                tree_ok(t, self.text.len() as int),
                node < t.nodes.len(),
                cs == &t.children@[node as int],
                k <= cs.len(),
                s0.es_fields_hold(*t, named_of_kind(*t, bytes, node as int, es_field_kind(), k as int), es.fields),
                s0.es_methods_hold(*t, named_of_kind(*t, bytes, node as int, es_method_kind(), k as int), es.methods),
            decreases cs.len() - k,
        {
            let member = cs[k];
            assert(node < t.children@[node as int]@[k as int] < t.nodes@.len());
            let ghost fl0 = named_of_kind(*t, bytes, node as int, es_field_kind(), k as int);
            let ghost ml0 = named_of_kind(*t, bytes, node as int, es_method_kind(), k as int);
            k = k + 1;
            if kind_is(t, member, &['e', 'n', 'u', 'm', '_', 's', 't', 'r', 'u', 'c', 't', '_', 'f', 'i', 'e', 'l', 'd']) {
                assert(named_of_kind(*t, bytes, node as int, es_method_kind(), k as int) == ml0);
                let fname = match self.name(t, member) {
                    Some(n) => n,
                    None => {
                        assert(named_of_kind(*t, bytes, node as int, es_field_kind(), k as int) == fl0);
                        continue;
                    },
                };
                let types = field_nodes(t, member, &['t', 'y', 'p', 'e']);
                let mut parts = self.type_parts(t, &types);
                let ghost p0 = parts;
                let ms = &t.children[member];
                let mut m: usize = 0;
                while m < ms.len()
                    invariant
                        *self == s0,
                        bytes == encode_utf8(self.text@),
                        strand_keyed(self.strand),
                        tree_ok(t, self.text.len() as int),
                        member < t.nodes.len(),
                        ms == &t.children@[member as int],
                        m <= ms.len(),
                        parts.base == p0.base,
                        parts.prefix_dims == p0.prefix_dims,
                        parts.is_const == p0.is_const,
                        parts.by_ref == p0.by_ref,
                        texts(parts.postfix_dims@) == fixed_dims(*t, bytes, *self.pp, member as int, m as int),
                    decreases ms.len() - m,
                {
                    let c = ms[m];
                    assert(member < t.children@[member as int]@[m as int] < t.nodes@.len());
                    if kind_is(t, c, &['f', 'i', 'x', 'e', 'd', '_', 'd', 'i', 'm', 'e', 'n', 's', 'i', 'o', 'n']) {
                        let d = self.dim(t, c);
                        let ghost before = texts(parts.postfix_dims@);
                        parts.postfix_dims.push(d);
                        assert(texts(parts.postfix_dims@) =~= before.push(d@));
                    }
                    m = m + 1;
                }
                proof {
                    assert(texts(parts.prefix_dims@) =~= parts.prefix_dims@.map_values(|d: Vec<char>| d@));
                }
                let ty = parts.type_string();
                let field = Field {
                    declaration: self.declaration(&fname, line_of(t, member)),
                    ty: to_string(&ty),
                };
                let ghost fv = field;
                proof {
                    assert(s0.es_field_holds(*t, member as int, fname@, fv));
                    assert(named_of_kind(*t, bytes, node as int, es_field_kind(), k as int) == fl0.push(member as int));
                    assert(fl0.push(member as int).drop_last() =~= fl0);
                }
                let ghost f0 = es.fields;
                insert_keyed(&mut es.fields, to_string(&fname), field);
                proof {
                    s0.lemma_es_field_step(*t, fl0.push(member as int), f0, es.fields, fv);
                }
            } else if kind_is(t, member, &['e', 'n', 'u', 'm', '_', 's', 't', 'r', 'u', 'c', 't', '_', 'm', 'e', 't', 'h', 'o', 'd']) {
                assert(named_of_kind(*t, bytes, node as int, es_field_kind(), k as int) == fl0);
                let mname = match self.name(t, member) {
                    Some(n) => n,
                    None => {
                        assert(named_of_kind(*t, bytes, node as int, es_method_kind(), k as int) == ml0);
                        continue;
                    },
                };
                let params = child_by_field(t, member, &['p', 'a', 'r', 'a', 'm', 'e', 't', 'e', 'r', 's']);
                let stock = vec!['s', 't', 'o', 'c', 'k'];
                assert(stock@ == seq!['s', 't', 'o', 'c', 'k']);
                let f = Function {
                    declaration: self.declaration(&mname, line_of(t, member)),
                    kind: to_string(&stock),
                    return_type: to_string(&self.return_type(t, member)),
                    arguments: self.parameters(t, params),
                };
                let ghost fv = f;
                proof {
                    assert(s0.es_method_holds(*t, member as int, mname@, fv));
                    assert(named_of_kind(*t, bytes, node as int, es_method_kind(), k as int) == ml0.push(member as int));
                    assert(ml0.push(member as int).drop_last() =~= ml0);
                }
                let ghost m0 = es.methods;
                insert_keyed(&mut es.methods, to_string(&mname), f);
                proof {
                    s0.lemma_es_method_step(*t, ml0.push(member as int), m0, es.methods, fv);
                }
            } else {
                assert(named_of_kind(*t, bytes, node as int, es_field_kind(), k as int) == fl0);
                assert(named_of_kind(*t, bytes, node as int, es_method_kind(), k as int) == ml0);
            }
        }
        insert_keyed(&mut self.strand.enumstructs, to_string(&name), es);
    }

    #[verifier::rlimit(40)]
    fn methodmap(&mut self, t: &SyntaxTree, node: usize)
        requires
            tree_ok(t, old(self).text.len() as int),
            node < t.nodes.len(),
            strand_keyed(old(self).strand),
        ensures
            final(self).text == old(self).text,
            final(self).strand.enumstructs == old(self).strand.enumstructs,
            final(self).strand.constants == old(self).strand.constants,
            final(self).strand.defines == old(self).strand.defines,
            final(self).strand.typesets == old(self).strand.typesets,
            final(self).source == old(self).source,
            final(self).pp == old(self).pp,
            final(self).comments == old(self).comments,
            final(self).line_starts == old(self).line_starts,
            strand_keyed(final(self).strand),
            strand_grows(old(self).strand, final(self).strand),
            final(self).strand.functions == old(self).strand.functions,
            final(self).strand.enums == old(self).strand.enums,
            final(self).strand.typedefs == old(self).strand.typedefs,
            node_name(*t, encode_utf8(old(self).text@), node as int) matches Some(n) ==> final(self).strand.methodmaps.contains_spec(n),
            match node_name(*t, encode_utf8(old(self).text@), node as int) {
                Some(n) => {
                    &&& final(self).strand.methodmaps.get_spec(n) matches Some(mm) && old(self).methodmap_holds(*t, node as int, n, old(self).strand.functions, mm)
                    &&& forall|k: Seq<char>| k != n ==> #[trigger] final(self).strand.methodmaps.get_spec(k) == old(self).strand.methodmaps.get_spec(k)
                },
                None => final(self).strand == old(self).strand,
            },
    {
        let ghost s0 = *self;
        let ghost bytes = encode_utf8(self.text@);
        let ghost src = encode_utf8(self.source@);
        let name = match self.name(t, node) {
            Some(n) => n,
            None => return,
        };
        let parent = match child_by_field(t, node, &['i', 'n', 'h', 'e', 'r', 'i', 't', 's']) {
            Some(p) => Some(to_string(&self.text_of(t, p))),
            None => None,
        };
        let mut mm = MethodMap {
            declaration: self.declaration(&name, line_of(t, node)),
            parent: parent,
            methods: SymbolMap::new(),
            properties: SymbolMap::new(),
        };
        let ghost decl0 = mm.declaration;
        let ghost parent0 = mm.parent;
        proof {
            assert(member_slots(*t, bytes, src, *self.pp, self.strand.functions, name@, node as int, 0) == (
                Map::<Seq<char>, int>::empty(),
                Map::<Seq<char>, int>::empty(),
            ));
        }
        let cs = &t.children[node];
        let mut k: usize = 0;
        while k < cs.len()
            invariant
                *self == s0,
                bytes == encode_utf8(self.text@),
                src == encode_utf8(self.source@),
                strand_keyed(self.strand),
                keyed(mm.methods),
                keyed(mm.properties),
                mm.declaration == decl0,
                mm.parent == parent0,
                tree_ok(t, self.text.len() as int),
                node < t.nodes.len(),
                cs == &t.children@[node as int],
                k <= cs.len(),
                self.members_hold(*t, node as int, name@, self.strand.functions, k as int, mm.methods, mm.properties),
            decreases cs.len() - k,
        {
            let member = cs[k];
            assert(node < t.children@[node as int]@[k as int] < t.nodes@.len());
            let ghost slots0 = member_slots(*t, bytes, src, *self.pp, self.strand.functions, name@, node as int, k as int);
            let ghost methods0 = mm.methods;
            let ghost properties0 = mm.properties;
            k = k + 1;
            if kind_is(t, member, &['m', 'e', 't', 'h', 'o', 'd', 'm', 'a', 'p', '_', 'p', 'r', 'o', 'p', 'e', 'r', 't', 'y']) {
                match self.property(t, member) {
                    Some(p) => {
                        let ghost pv = p;
                        let pname = p.declaration.name.clone();
                        insert_keyed(&mut mm.properties, pname, p);
                        proof {
                            self.lemma_property_step(*t, node as int, name@, self.strand.functions, k as int, mm.methods, properties0, mm.properties, member as int, pv);
                        }
                    },
                    None => {
                        proof {
                            let slots1 = member_slots(*t, bytes, src, *self.pp, self.strand.functions, name@, node as int, k as int);
                            assert(slots1 == slots0);
                        }
                    },
                }
                assert(self.members_hold(*t, node as int, name@, self.strand.functions, k as int, mm.methods, mm.properties));
                continue;
            }
            let mname = match self.name(t, member) {
                Some(n) => n,
                None => {
                    assert(member_slots(*t, bytes, src, *self.pp, self.strand.functions, name@, node as int, k as int) == slots0);
                    continue;
                },
            };
            let params = child_by_field(t, member, &['p', 'a', 'r', 'a', 'm', 'e', 't', 'e', 'r', 's']);
            let native = vec!['n', 'a', 't', 'i', 'v', 'e'];
            let stock = vec!['s', 't', 'o', 'c', 'k'];
            let void = vec!['v', 'o', 'i', 'd'];
            assert(native@ == seq!['n', 'a', 't', 'i', 'v', 'e']);
            assert(stock@ == seq!['s', 't', 'o', 'c', 'k']);
            assert(void@ == seq!['v', 'o', 'i', 'd']);
            let (method_kind, return_type, arguments) = if kind_is(t, member, &['m', 'e', 't', 'h', 'o', 'd', 'm', 'a', 'p', '_', 'n', 'a', 't', 'i', 'v', 'e']) {
                (native, self.return_type(t, member), self.parameters(t, params))
            } else if kind_is(t, member, &['m', 'e', 't', 'h', 'o', 'd', 'm', 'a', 'p', '_', 'm', 'e', 't', 'h', 'o', 'd']) {
                (stock, self.return_type(t, member), self.parameters(t, params))
            } else if kind_is(t, member, &['m', 'e', 't', 'h', 'o', 'd', 'm', 'a', 'p', '_', 'n', 'a', 't', 'i', 'v', 'e', '_', 'c', 'o', 'n', 's', 't', 'r', 'u', 'c', 't', 'o', 'r']) {
                (native, copy_chars(&name), self.parameters(t, params))
            } else if kind_is(t, member, &['m', 'e', 't', 'h', 'o', 'd', 'm', 'a', 'p', '_', 'm', 'e', 't', 'h', 'o', 'd', '_', 'c', 'o', 'n', 's', 't', 'r', 'u', 'c', 't', 'o', 'r']) {
                (stock, copy_chars(&name), self.parameters(t, params))
            } else if kind_is(t, member, &['m', 'e', 't', 'h', 'o', 'd', 'm', 'a', 'p', '_', 'n', 'a', 't', 'i', 'v', 'e', '_', 'd', 'e', 's', 't', 'r', 'u', 'c', 't', 'o', 'r']) {
                (native, void, Vec::new())
            } else if kind_is(t, member, &['m', 'e', 't', 'h', 'o', 'd', 'm', 'a', 'p', '_', 'm', 'e', 't', 'h', 'o', 'd', '_', 'd', 'e', 's', 't', 'r', 'u', 'c', 't', 'o', 'r']) {
                (stock, void, Vec::new())
            } else if kind_is(t, member, &['m', 'e', 't', 'h', 'o', 'd', 'm', 'a', 'p', '_', 'a', 'l', 'i', 'a', 's']) {
                // `public Close() = CloseHandle;` borrows the aliased
                // function's signature, minus the `this` argument
                let target = match child_by_field(t, member, &['f', 'u', 'n', 'c', 't', 'i', 'o', 'n']) {
                    Some(f) => Some(to_string(&self.text_of(t, f))),
                    None => None,
                };
                let aliased = match &target {
                    Some(tname) => self.strand.functions.get(tname.as_str()),
                    None => None,
                };
                match aliased {
                    Some(f) => {
                        let ghost whole = f.arguments@.map_values(|a: Argument| param_view(a));
                        let mut args: Vec<Argument> = Vec::new();
                        let mut a: usize = 1;
                        while a < f.arguments.len()
                            invariant
                                1 <= a,
                                whole == f.arguments@.map_values(|a: Argument| param_view(a)),
                                f.arguments.len() > 0 ==> a <= f.arguments.len() && args@.map_values(
                                    |a: Argument| param_view(a),
                                ) == whole.subrange(1, a as int),
                                f.arguments.len() == 0 ==> args@.len() == 0,
                            decreases f.arguments.len() - a,
                        {
                            let ghost before = args@;
                            let c = copy_argument(&f.arguments[a]);
                            args.push(c);
                            assert(args@.map_values(|a: Argument| param_view(a)) =~= before.map_values(
                                |a: Argument| param_view(a),
                            ).push(whole[a as int]));
                            a = a + 1;
                            assert(args@.map_values(|a: Argument| param_view(a)) =~= whole.subrange(1, a as int));
                        }
                        assert(args@.map_values(|a: Argument| param_view(a)) =~= tail_args(whole));
                        (native, chars_of(f.return_type.as_str()), args)
                    },
                    None => (native, void, Vec::new()),
                }
            } else {
                assert(method_body(*t, bytes, src, *self.pp, self.strand.functions, name@, member as int) is None);
                assert(member_slots(*t, bytes, src, *self.pp, self.strand.functions, name@, node as int, k as int) == slots0);
                continue;
            };
            assert(method_body(*t, bytes, src, *self.pp, self.strand.functions, name@, member as int) == Some(
                (method_kind@, return_type@, arguments@.map_values(|a: Argument| param_view(a))),
            ));
            let ghost base_name = mname@;
            let mname = if kind_ends_with(t, member, &['d', 'e', 's', 't', 'r', 'u', 'c', 't', 'o', 'r']) {
                let mut d = vec!['~'];
                push_all(&mut d, mname.as_slice());
                d
            } else {
                mname
            };
            let f = Function {
                declaration: self.declaration(&mname, line_of(t, member)),
                kind: to_string(&method_kind),
                return_type: to_string(&return_type),
                arguments: arguments,
            };
            let ghost fv = f;
            insert_keyed(&mut mm.methods, to_string(&mname), f);
            proof {
                let key = mname@;
                assert(method_entry(*t, bytes, src, *self.pp, self.strand.functions, name@, member as int) == Some(
                    (key, (method_kind@, return_type@, arguments@.map_values(|a: Argument| param_view(a)))),
                ));
                assert(self.method_holds(*t, member as int, name@, self.strand.functions, key, fv));
                self.lemma_method_step(*t, node as int, name@, self.strand.functions, k as int, methods0, mm.methods, mm.properties, member as int, key, fv);
            }
        }
        let ghost mmv = mm;
        insert_keyed(&mut self.strand.methodmaps, to_string(&name), mm);
    }

    fn property(&self, t: &SyntaxTree, node: usize) -> (r: Option<Property>)
        requires
            tree_ok(t, self.text.len() as int),
            node < t.nodes.len(),
        ensures
            match node_name(*t, encode_utf8(self.text@), node as int) {
                Some(n) => r matches Some(p) && self.property_holds(*t, node as int, n, p),
                None => r is None,
            },
    {
        let name = match self.name(t, node) {
            Some(n) => n,
            None => return None,
        };
        let types = field_nodes(t, node, &['t', 'y', 'p', 'e']);
        let parts = self.type_parts(t, &types);
        proof {
            assert(texts(parts.postfix_dims@) =~= Seq::<Seq<char>>::empty());
            assert(texts(parts.prefix_dims@) =~= parts.prefix_dims@.map_values(|d: Vec<char>| d@));
            assert(texts(parts.prefix_dims@) + texts(parts.postfix_dims@) =~= texts(parts.prefix_dims@));
        }
        let ty = parts.type_string();
        let mut getter = false;
        let mut setter = false;
        let cs = &t.children[node];
        let mut k: usize = 0;
        while k < cs.len()
            invariant
                tree_ok(t, self.text.len() as int),
                node < t.nodes.len(),
                cs == &t.children@[node as int],
                k <= cs.len(),
                (getter, setter) == accessors_in(*t, node as int, k as int),
            decreases cs.len() - k,
        {
            let c = cs[k];
            assert(node < t.children@[node as int]@[k as int] < t.nodes@.len());
            let (g, s) = accessors(t, c);
            getter = getter || g;
            setter = setter || s;
            k = k + 1;
        }
        Some(Property {
            declaration: self.declaration(&name, line_of(t, node)),
            ty: to_string(&ty),
            getter: getter,
            setter: setter,
        })
    }

    /// Renders a `typedef_expression` into `function <ret>(<args>)`
    fn typedef_expression(&self, t: &SyntaxTree, node: usize) -> (r: Vec<char>)
        requires
            tree_ok(t, self.text.len() as int),
            node < t.nodes.len(),
        ensures
            r@ == signature_of(
                return_type_of(*t, encode_utf8(self.text@), encode_utf8(self.source@), *self.pp, node as int),
                parameters_of(
                    *t,
                    encode_utf8(self.text@),
                    *self.pp,
                    first_field(*t, node as int, seq!['p', 'a', 'r', 'a', 'm', 'e', 't', 'e', 'r', 's']),
                ),
            ),
    {
        let ret = self.return_type(t, node);
        let params = self.parameters(t, child_by_field(t, node, &['p', 'a', 'r', 'a', 'm', 'e', 't', 'e', 'r', 's']));
        signature(&ret, &params)
    }

    fn typedef(&mut self, t: &SyntaxTree, node: usize)
        requires
            tree_ok(t, old(self).text.len() as int),
            node < t.nodes.len(),
            strand_keyed(old(self).strand),
        ensures
            final(self).text == old(self).text,
            final(self).strand.methodmaps == old(self).strand.methodmaps,
            final(self).strand.enumstructs == old(self).strand.enumstructs,
            final(self).strand.constants == old(self).strand.constants,
            final(self).strand.defines == old(self).strand.defines,
            final(self).strand.typesets == old(self).strand.typesets,
            final(self).source == old(self).source,
            final(self).pp == old(self).pp,
            final(self).comments == old(self).comments,
            final(self).line_starts == old(self).line_starts,
            final(self).strand.functions == old(self).strand.functions,
            final(self).strand.enums == old(self).strand.enums,
            strand_keyed(final(self).strand),
            strand_grows(old(self).strand, final(self).strand),
            node_name(*t, encode_utf8(old(self).text@), node as int) matches Some(n) ==> final(self).strand.typedefs.contains_spec(n),
            match node_name(*t, encode_utf8(old(self).text@), node as int) {
                Some(n) => {
                    &&& final(self).strand.typedefs.get_spec(n) matches Some(td) && old(self).typedef_recorded(
                        (t.nodes@[node as int].row + 1) as usize,
                        n,
                        typedef_type_of(*t, encode_utf8(old(self).text@), encode_utf8(old(self).source@), *old(self).pp, node as int),
                        td,
                    )
                    &&& forall|k: Seq<char>| k != n ==> #[trigger] final(self).strand.typedefs.get_spec(k) == old(self).strand.typedefs.get_spec(k)
                },
                None => final(self).strand == old(self).strand,
            },
    {
        let name = match self.name(t, node) {
            Some(n) => n,
            None => return,
        };
        let cs = &t.children[node];
        let mut found: Option<usize> = None;
        let mut k: usize = 0;
        while k < cs.len() && found.is_none()
            invariant
                self.strand.methodmaps == old(self).strand.methodmaps,
                self.strand.enumstructs == old(self).strand.enumstructs,
                self.strand.constants == old(self).strand.constants,
                self.strand.defines == old(self).strand.defines,
                self.strand.typesets == old(self).strand.typesets,
                self.strand.functions == old(self).strand.functions,
                self.strand.enums == old(self).strand.enums,
                self.source == old(self).source,
                self.pp == old(self).pp,
                self.comments == old(self).comments,
                self.line_starts == old(self).line_starts,
                strand_keyed(self.strand),
                tree_ok(t, self.text.len() as int),
                node < t.nodes.len(),
                cs == &t.children@[node as int],
                k <= cs.len(),
                found matches Some(f) ==> f < t.nodes.len(),
                found matches Some(f) ==> first_kind_from(*t, node as int, seq!['t', 'y', 'p', 'e', 'd', 'e', 'f', '_', 'e', 'x', 'p', 'r', 'e', 's', 's', 'i', 'o', 'n'], 0) == Some(f),
                found is None ==> first_kind_from(*t, node as int, seq!['t', 'y', 'p', 'e', 'd', 'e', 'f', '_', 'e', 'x', 'p', 'r', 'e', 's', 's', 'i', 'o', 'n'], 0) == first_kind_from(
                    *t,
                    node as int,
                    seq!['t', 'y', 'p', 'e', 'd', 'e', 'f', '_', 'e', 'x', 'p', 'r', 'e', 's', 's', 'i', 'o', 'n'],
                    k as int,
                ),
            decreases cs.len() - k,
        {
            let c = cs[k];
            assert(node < t.children@[node as int]@[k as int] < t.nodes@.len());
            if kind_is(t, c, &['t', 'y', 'p', 'e', 'd', 'e', 'f', '_', 'e', 'x', 'p', 'r', 'e', 's', 's', 'i', 'o', 'n']) {
                found = Some(c);
            }
            k = k + 1;
        }
        proof {
            if found is None {
                assert(first_kind_from(*t, node as int, seq!['t', 'y', 'p', 'e', 'd', 'e', 'f', '_', 'e', 'x', 'p', 'r', 'e',
                    's', 's', 'i', 'o', 'n'], k as int) is None);
            }
        }
        let ty = match found {
            Some(e) => self.typedef_expression(t, e),
            None => {
                let types = field_nodes(t, node, &['t', 'y', 'p', 'e']);
                let mut parts = self.type_parts(t, &types);
                // Dimensions after the aliased type are part of it
                parts.postfix_dims = Vec::new();
                proof {
                    assert(texts(parts.postfix_dims@) =~= Seq::<Seq<char>>::empty());
                    assert(texts(parts.prefix_dims@) =~= parts.prefix_dims@.map_values(|d: Vec<char>| d@));
                    assert(texts(parts.prefix_dims@) + texts(parts.postfix_dims@) =~= texts(parts.prefix_dims@));
                }
                parts.type_string()
            },
        };
        self.insert_typedef(&name, line_of(t, node), &ty);
    }

    fn insert_typedef(&mut self, name: &Vec<char>, line: usize, ty: &Vec<char>)
        requires
            strand_keyed(old(self).strand),
        ensures
            final(self).text == old(self).text,
            final(self).strand.methodmaps == old(self).strand.methodmaps,
            final(self).strand.enumstructs == old(self).strand.enumstructs,
            final(self).strand.constants == old(self).strand.constants,
            final(self).strand.defines == old(self).strand.defines,
            final(self).strand.typesets == old(self).strand.typesets,
            final(self).source == old(self).source,
            final(self).pp == old(self).pp,
            final(self).comments == old(self).comments,
            final(self).line_starts == old(self).line_starts,
            final(self).strand.functions == old(self).strand.functions,
            final(self).strand.enums == old(self).strand.enums,
            strand_keyed(final(self).strand),
            strand_grows(old(self).strand, final(self).strand),
            final(self).strand.typedefs.contains_spec(name@),
            final(self).strand.typedefs.get_spec(name@) matches Some(td) && old(self).typedef_recorded(line, name@, ty@, td),
            forall|k: Seq<char>| k != name@ ==> #[trigger] final(self).strand.typedefs.get_spec(k) == old(self).strand.typedefs.get_spec(k),
    {
        let ty_string = to_string(ty);
        let parsed_signature = parse_type_signature(ty_string.as_str());
        let td = TypeDefinition { declaration: self.declaration(name, line), ty: ty_string, parsed_signature: parsed_signature };
        insert_keyed(&mut self.strand.typedefs, to_string(name), td);
    }

    #[verifier::rlimit(40)]
    fn insert_typeset(&mut self, name: &Vec<char>, line: usize, types: Vec<(Vec<char>, usize)>)
        requires
            strand_keyed(old(self).strand),
        ensures
            final(self).text == old(self).text,
            final(self).strand.methodmaps == old(self).strand.methodmaps,
            final(self).strand.enumstructs == old(self).strand.enumstructs,
            final(self).strand.constants == old(self).strand.constants,
            final(self).strand.defines == old(self).strand.defines,
            final(self).source == old(self).source,
            final(self).pp == old(self).pp,
            final(self).comments == old(self).comments,
            final(self).line_starts == old(self).line_starts,
            final(self).strand.functions == old(self).strand.functions,
            final(self).strand.enums == old(self).strand.enums,
            final(self).strand.typedefs == old(self).strand.typedefs,
            strand_keyed(final(self).strand),
            strand_grows(old(self).strand, final(self).strand),
            final(self).strand.typesets.contains_spec(name@),
            final(self).strand.typesets.get_spec(name@) matches Some(ts) && ts.declaration.name@ == name@
                && old(self).documents(line, ts.declaration.documentation) && old(self).types_hold(
                types@.map_values(|e: (Vec<char>, usize)| (e.0@, e.1)),
                ts.types,
            ),
            forall|k: Seq<char>| k != name@ ==> #[trigger] final(self).strand.typesets.get_spec(k) == old(self).strand.typesets.get_spec(k),
    {
        let ghost s0 = *self;
        let ghost sigs = types@.map_values(|e: (Vec<char>, usize)| (e.0@, e.1));
        let mut ts = TypeSet { declaration: self.declaration(name, line), types: SymbolMap::new() };
        let ghost decl0 = ts.declaration;
        let mut types = types;
        let ghost mut p: int = 0;
        proof {
            assert(sigs.take(0) =~= Seq::<(Seq<char>, usize)>::empty());
        }
        while types.len() > 0
            invariant
                *self == s0,
                keyed(ts.types),
                ts.declaration == decl0,
                ts.declaration.name@ == name@,
                strand_keyed(self.strand),
                0 <= p <= sigs.len(),
                types@.len() == sigs.len() - p,
                forall|q: int| 0 <= q < types@.len() ==> ((#[trigger] types@[q]).0@, types@[q].1) == sigs[p + q],
                s0.types_hold(sigs.take(p), ts.types),
            decreases types.len(),
        {
            assert((types@[0].0@, types@[0].1) == sigs[p]);
            let (ty, tline) = types.remove(0);
            let ty_string = to_string(&ty);
            let entry = Type {
                documentation: self.documentation(tline),
                parsed_signature: parse_type_signature(ty_string.as_str()),
                ty: ty_string,
            };
            let ghost ev = entry;
            let ghost m0 = ts.types;
            insert_keyed(&mut ts.types, to_string(&ty), entry);
            proof {
                let sp = sigs.take(p + 1);
                assert(sp.drop_last() =~= sigs.take(p));
                assert(sp.last() == sigs[p]);
                let s_0 = sig_slots(sigs.take(p));
                let s_1 = sig_slots(sp);
                let key = ty@;
                assert(s_1 == s_0.insert(key, p));
                assert forall|k2: Seq<char>| #[trigger] ts.types.contains_spec(k2) == s_1.contains_key(k2) by {
                    if k2 != key {
                        assert(m0.contains_spec(k2) == s_0.contains_key(k2));
                    }
                }
                assert forall|k2: Seq<char>| #[trigger] s_1.contains_key(k2) implies (ts.types.get_spec(k2) matches Some(t2)
                    && t2.ty@ == k2 && 0 <= s_1[k2] < sp.len() && s0.documents(sp[s_1[k2]].1, t2.documentation)
                    && signature_parsed(k2, t2.parsed_signature)) by {
                    if k2 != key {
                        assert(s_0.contains_key(k2));
                        assert(sp[s_1[k2]] == sigs.take(p)[s_0[k2]]);
                    }
                }
                p = p + 1;
            }
        }
        proof {
            assert(sigs.take(p) =~= sigs);
        }
        insert_keyed(&mut self.strand.typesets, to_string(name), ts);
    }

    #[verifier::rlimit(40)]
    fn typeset(&mut self, t: &SyntaxTree, node: usize)
        requires
            tree_ok(t, old(self).text.len() as int),
            node < t.nodes.len(),
            t.nodes@[node as int].kind@ == seq!['t', 'y', 'p', 'e', 's', 'e', 't'],
            strand_keyed(old(self).strand),
        ensures
            final(self).text == old(self).text,
            final(self).strand.methodmaps == old(self).strand.methodmaps,
            final(self).strand.enumstructs == old(self).strand.enumstructs,
            final(self).strand.constants == old(self).strand.constants,
            final(self).strand.defines == old(self).strand.defines,
            final(self).source == old(self).source,
            final(self).pp == old(self).pp,
            final(self).comments == old(self).comments,
            final(self).line_starts == old(self).line_starts,
            final(self).strand.functions == old(self).strand.functions,
            final(self).strand.enums == old(self).strand.enums,
            final(self).strand.typedefs == old(self).strand.typedefs,
            strand_keyed(final(self).strand),
            strand_grows(old(self).strand, final(self).strand),
            node_name(*t, encode_utf8(old(self).text@), node as int) matches Some(n) ==> final(self).strand.typesets.contains_spec(n),
            match node_name(*t, encode_utf8(old(self).text@), node as int) {
                Some(n) => {
                    &&& final(self).strand.typesets.get_spec(n) matches Some(ts) && ts.declaration.name@ == n
                        && old(self).documents((t.nodes@[node as int].row + 1) as usize, ts.declaration.documentation)
                        && old(self).types_hold(
                            typeset_sigs(*t, encode_utf8(old(self).text@), encode_utf8(old(self).source@), *old(self).pp, node as int, t.children@[node as int]@.len() as int),
                            ts.types,
                        )
                    &&& forall|k: Seq<char>| k != n ==> #[trigger] final(self).strand.typesets.get_spec(k) == old(self).strand.typesets.get_spec(k)
                },
                None => final(self).strand == old(self).strand,
            },
    {
        let ghost s0 = *self;
        let ghost bytes = encode_utf8(self.text@);
        let ghost src = encode_utf8(self.source@);
        let name = match self.name(t, node) {
            Some(n) => n,
            None => return,
        };
        let mut types: Vec<(Vec<char>, usize)> = Vec::new();
        let cs = &t.children[node];
        let mut k: usize = 0;
        while k < cs.len()
            invariant
                *self == s0,
                bytes == encode_utf8(self.text@),
                src == encode_utf8(self.source@),
                strand_keyed(self.strand),
                tree_ok(t, self.text.len() as int),
                node < t.nodes.len(),
                t.nodes@[node as int].kind@ == seq!['t', 'y', 'p', 'e', 's', 'e', 't'],
                cs == &t.children@[node as int],
                k <= cs.len(),
                types@.map_values(|e: (Vec<char>, usize)| (e.0@, e.1)) == typeset_sigs(*t, bytes, src, *self.pp, node as int, k as int),
            decreases cs.len() - k,
        {
            let c = cs[k];
            assert(node < t.children@[node as int]@[k as int] < t.nodes@.len());
            let ghost before = types@;
            if kind_is(t, c, &['t', 'y', 'p', 'e', 'd', 'e', 'f', '_', 'e', 'x', 'p', 'r', 'e', 's', 's', 'i', 'o', 'n']) {
                let sig = self.typedef_expression(t, c);
                let l = line_of(t, c);
                types.push((sig, l));
                assert(types@.map_values(|e: (Vec<char>, usize)| (e.0@, e.1)) =~= before.map_values(
                    |e: (Vec<char>, usize)| (e.0@, e.1),
                ).push((sig@, l)));
            }
            k = k + 1;
        }
        self.insert_typeset(&name, line_of(t, node), types);
    }

    fn functag(&mut self, t: &SyntaxTree, node: usize)
        requires
            tree_ok(t, old(self).text.len() as int),
            node < t.nodes.len(),
            strand_keyed(old(self).strand),
        ensures
            final(self).text == old(self).text,
            final(self).strand.methodmaps == old(self).strand.methodmaps,
            final(self).strand.enumstructs == old(self).strand.enumstructs,
            final(self).strand.constants == old(self).strand.constants,
            final(self).strand.defines == old(self).strand.defines,
            final(self).strand.typesets == old(self).strand.typesets,
            final(self).source == old(self).source,
            final(self).pp == old(self).pp,
            final(self).comments == old(self).comments,
            final(self).line_starts == old(self).line_starts,
            final(self).strand.functions == old(self).strand.functions,
            final(self).strand.enums == old(self).strand.enums,
            strand_keyed(final(self).strand),
            strand_grows(old(self).strand, final(self).strand),
            node_name(*t, encode_utf8(old(self).text@), node as int) matches Some(n) ==> final(self).strand.typedefs.contains_spec(n),
            match node_name(*t, encode_utf8(old(self).text@), node as int) {
                Some(n) => {
                    &&& final(self).strand.typedefs.get_spec(n) matches Some(td) && old(self).typedef_recorded(
                        (t.nodes@[node as int].row + 1) as usize,
                        n,
                        signature_of(
                            return_type_of(*t, encode_utf8(old(self).text@), encode_utf8(old(self).source@), *old(self).pp, node as int),
                            parameters_of(
                                *t,
                                encode_utf8(old(self).text@),
                                *old(self).pp,
                                first_field(*t, node as int, seq!['p', 'a', 'r', 'a', 'm', 'e', 't', 'e', 'r', 's']),
                            ),
                        ),
                        td,
                    )
                    &&& forall|k: Seq<char>| k != n ==> #[trigger] final(self).strand.typedefs.get_spec(k) == old(self).strand.typedefs.get_spec(k)
                },
                None => final(self).strand == old(self).strand,
            },
    {
        let name = match self.name(t, node) {
            Some(n) => n,
            None => return,
        };
        let ret = self.return_type(t, node);
        let params = self.parameters(t, child_by_field(t, node, &['p', 'a', 'r', 'a', 'm', 'e', 't', 'e', 'r', 's']));
        let sig = signature(&ret, &params);
        self.insert_typedef(&name, line_of(t, node), &sig);
    }

    fn funcenum(&mut self, t: &SyntaxTree, node: usize)
        requires
            tree_ok(t, old(self).text.len() as int),
            node < t.nodes.len(),
            t.nodes@[node as int].kind@ == seq!['f', 'u', 'n', 'c', 'e', 'n', 'u', 'm'],
            strand_keyed(old(self).strand),
        ensures
            final(self).text == old(self).text,
            final(self).strand.methodmaps == old(self).strand.methodmaps,
            final(self).strand.enumstructs == old(self).strand.enumstructs,
            final(self).strand.constants == old(self).strand.constants,
            final(self).strand.defines == old(self).strand.defines,
            final(self).source == old(self).source,
            final(self).pp == old(self).pp,
            final(self).comments == old(self).comments,
            final(self).line_starts == old(self).line_starts,
            final(self).strand.functions == old(self).strand.functions,
            final(self).strand.enums == old(self).strand.enums,
            final(self).strand.typedefs == old(self).strand.typedefs,
            strand_keyed(final(self).strand),
            strand_grows(old(self).strand, final(self).strand),
            node_name(*t, encode_utf8(old(self).text@), node as int) matches Some(n) ==> final(self).strand.typesets.contains_spec(n),
            match node_name(*t, encode_utf8(old(self).text@), node as int) {
                Some(n) => {
                    &&& final(self).strand.typesets.get_spec(n) matches Some(ts) && ts.declaration.name@ == n
                        && old(self).documents((t.nodes@[node as int].row + 1) as usize, ts.declaration.documentation)
                        && old(self).types_hold(
                            typeset_sigs(*t, encode_utf8(old(self).text@), encode_utf8(old(self).source@), *old(self).pp, node as int, t.children@[node as int]@.len() as int),
                            ts.types,
                        )
                    &&& forall|k: Seq<char>| k != n ==> #[trigger] final(self).strand.typesets.get_spec(k) == old(self).strand.typesets.get_spec(k)
                },
                None => final(self).strand == old(self).strand,
            },
    {
        let ghost s0 = *self;
        let ghost bytes = encode_utf8(self.text@);
        let ghost src = encode_utf8(self.source@);
        let name = match self.name(t, node) {
            Some(n) => n,
            None => return,
        };
        let mut types: Vec<(Vec<char>, usize)> = Vec::new();
        let cs = &t.children[node];
        let mut k: usize = 0;
        while k < cs.len()
            invariant
                *self == s0,
                bytes == encode_utf8(self.text@),
                src == encode_utf8(self.source@),
                strand_keyed(self.strand),
                tree_ok(t, self.text.len() as int),
                node < t.nodes.len(),
                t.nodes@[node as int].kind@ == seq!['f', 'u', 'n', 'c', 'e', 'n', 'u', 'm'],
                cs == &t.children@[node as int],
                k <= cs.len(),
                types@.map_values(|e: (Vec<char>, usize)| (e.0@, e.1)) == typeset_sigs(*t, bytes, src, *self.pp, node as int, k as int),
            decreases cs.len() - k,
        {
            let c = cs[k];
            assert(node < t.children@[node as int]@[k as int] < t.nodes@.len());
            let ghost before = types@;
            assert(typeset_member_kind(*t, node as int) == seq!['f', 'u', 'n', 'c', 'e', 'n', 'u', 'm', '_', 'm', 'e', 'm', 'b', 'e', 'r']);
            if kind_is(t, c, &['f', 'u', 'n', 'c', 'e', 'n', 'u', 'm', '_', 'm', 'e', 'm', 'b', 'e', 'r']) {
                let sig = self.typedef_expression(t, c);
                let l = line_of(t, c);
                types.push((sig, l));
                assert(types@.map_values(|e: (Vec<char>, usize)| (e.0@, e.1)) =~= before.map_values(
                    |e: (Vec<char>, usize)| (e.0@, e.1),
                ).push((sig@, l)));
            }
            k = k + 1;
        }
        self.insert_typeset(&name, line_of(t, node), types);
    }

    /// Records every macro still defined at the end of the file
    fn defines(&mut self)
        requires
            strand_keyed(old(self).strand),
        ensures
            final(self).text == old(self).text,
            final(self).source == old(self).source,
            final(self).pp == old(self).pp,
            final(self).comments == old(self).comments,
            final(self).line_starts == old(self).line_starts,
            strand_keyed(final(self).strand),
            strand_grows(old(self).strand, final(self).strand),
            forall|n: Seq<char>| #[trigger] live_define(old(self).pp.macros@, n, old(self).pp.macros@.len() as int) is None
                ==> final(self).strand.defines.get_spec(n) == old(self).strand.defines.get_spec(n),
            forall|n: Seq<char>| #[trigger] live_define(old(self).pp.macros@, n, old(self).pp.macros@.len() as int) matches Some(j)
                ==> define_recorded(final(self).strand.defines, old(self).pp.macros@, old(self).line_starts@, n, j),
            final(self).strand.functions == old(self).strand.functions,
            final(self).strand.enums == old(self).strand.enums,
            final(self).strand.typedefs == old(self).strand.typedefs,
            final(self).strand.methodmaps == old(self).strand.methodmaps,
            final(self).strand.enumstructs == old(self).strand.enumstructs,
            final(self).strand.constants == old(self).strand.constants,
            final(self).strand.enums == old(self).strand.enums,
            final(self).strand.typedefs == old(self).strand.typedefs,
            final(self).strand.typesets == old(self).strand.typesets,
            final(self).strand.typedefs == old(self).strand.typedefs,
    {
        let ghost s0 = self.strand;
        let mut k: usize = 0;
        while k < self.pp.macros.len()
            invariant
                self.source == old(self).source,
                self.comments == old(self).comments,
                self.line_starts == old(self).line_starts,
                self.strand.functions == old(self).strand.functions,
                self.strand.enums == old(self).strand.enums,
                self.strand.typedefs == old(self).strand.typedefs,
                strand_grows(old(self).strand, self.strand),
                strand_keyed(self.strand),
                self.text == old(self).text,
                self.pp == old(self).pp,
                self.line_starts == old(self).line_starts,
                s0 == old(self).strand,
                k <= self.pp.macros.len(),
                self.strand.functions == s0.functions,
                self.strand.methodmaps == s0.methodmaps,
                self.strand.enumstructs == s0.enumstructs,
                self.strand.constants == s0.constants,
                self.strand.enums == s0.enums,
                self.strand.typesets == s0.typesets,
                self.strand.typedefs == s0.typedefs,
                forall|n: Seq<char>| #[trigger] live_define(self.pp.macros@, n, k as int) is None
                    ==> self.strand.defines.get_spec(n) == s0.defines.get_spec(n),
                forall|n: Seq<char>| #[trigger] live_define(self.pp.macros@, n, k as int) matches Some(j)
                    ==> define_recorded(self.strand.defines, self.pp.macros@, self.line_starts@, n, j),
            decreases self.pp.macros.len() - k,
        {
            let m = &self.pp.macros[k];
            if m.undefined_at.is_none() {
                let line = self.line_of_offset(m.offset);
                let name = chars_of(m.name.as_str());
                let define = Define { declaration: self.declaration(&name, line), value: m.value.clone() };
                insert_keyed(&mut self.strand.defines, m.name.clone(), define);
            }
            proof {
                assert forall|n: Seq<char>| #[trigger] live_define(self.pp.macros@, n, k + 1) is None
                    implies self.strand.defines.get_spec(n) == s0.defines.get_spec(n) by {
                    assert(live_define(self.pp.macros@, n, k as int) is None);
                }
                assert forall|n: Seq<char>| #[trigger] live_define(self.pp.macros@, n, k + 1) is Some
                    implies define_recorded(self.strand.defines, self.pp.macros@, self.line_starts@, n, live_define(self.pp.macros@, n, k + 1)->0) by {
                    if self.pp.macros@[k as int].undefined_at is None && self.pp.macros@[k as int].name@ == n {
                    } else {
                        assert(live_define(self.pp.macros@, n, k + 1) == live_define(self.pp.macros@, n, k as int));
                    }
                }
            }
            k = k + 1;
        }
    }
}

fn push_keys<T>(out: &mut Vec<Vec<char>>, m: &SymbolMap<T>)
    ensures
        final(out)@.map_values(|w: Vec<char>| w@) == old(out)@.map_values(|w: Vec<char>| w@) + m.keys(),
{
    let mut k: usize = 0;
    while k < m.len()
        invariant
            k <= m.keys().len(),
            out@.map_values(|w: Vec<char>| w@) == old(out)@.map_values(|w: Vec<char>| w@) + m.keys().take(k as int),
        decreases m.keys().len() - k,
    {
        let ghost before = out@.map_values(|w: Vec<char>| w@);
        out.push(chars_of(m.key_at(k).as_str()));
        assert(out@.map_values(|w: Vec<char>| w@) =~= before.push(m.keys()[k as int]));
        assert(m.keys().take(k + 1) =~= m.keys().take(k as int).push(m.keys()[k as int]));
        k = k + 1;
    }
    assert(m.keys().take(k as int) =~= m.keys());
}

fn is_type_break(c: char) -> (r: bool)
    ensures
        r == (c == '[' || c == '&' || c == ' ' || c == '.'),
{
    c == '[' || c == '&' || c == ' ' || c == '.'
}

/// Where a run of `const ` prefixes from `i` ends
pub open spec fn const_end(t: Seq<char>, i: int) -> int
    decreases t.len() - i,
{
    if 0 <= i && i + 6 <= t.len() && has_at(t, i, seq!['c', 'o', 'n', 's', 't', ' ']) {
        const_end(t, i + 6)
    } else {
        i
    }
}

/// Characters that end a type's name
pub open spec fn type_break(c: char) -> bool {
    c == '[' || c == '&' || c == ' ' || c == '.'
}

/// Where the name that starts at `e` ends
pub open spec fn name_end(t: Seq<char>, e: int) -> int
    decreases t.len() - e,
{
    if 0 <= e < t.len() && !type_break(t[e]) {
        name_end(t, e + 1)
    } else {
        e
    }
}

/// The name a type refers to: past any `const `, up to `[`, `&`, a space or `.`
pub open spec fn referenced_type(t: Seq<char>) -> Seq<char> {
    let i = const_end(t, 0);
    t.subrange(i, name_end(t, i))
}

/// The builtin types
pub open spec fn builtin_types() -> Seq<Seq<char>> {
    seq![
        seq!['i', 'n', 't'],
        seq!['b', 'o', 'o', 'l'],
        seq!['f', 'l', 'o', 'a', 't'],
        seq!['c', 'h', 'a', 'r'],
        seq!['a', 'n', 'y'],
        seq!['v', 'o', 'i', 'd'],
        seq!['i', 'n', 't', '6', '4'],
    ]
}

/// Whether type `t` names a builtin or one of the `local` types
pub open spec fn names_local(t: Seq<char>, local: Seq<Seq<char>>) -> bool {
    builtin_types().contains(referenced_type(t)) || local.contains(referenced_type(t))
}

/// Whether type `t` names a builtin or a type declared in this file
fn is_local(t: &Vec<char>, local: &Vec<Vec<char>>) -> (r: bool)
    ensures
        r == names_local(t@, local@.map_values(|w: Vec<char>| w@)),
{
    let prefix = ['c', 'o', 'n', 's', 't', ' '];
    assert(prefix@ == seq!['c', 'o', 'n', 's', 't', ' ']);
    let mut i: usize = 0;
    while i <= t.len() && 6 <= t.len() - i && crate::text::chars_at(t.as_slice(), i, &prefix)
        invariant
            i <= t.len(),
            prefix@ == seq!['c', 'o', 'n', 's', 't', ' '],
            const_end(t@, 0) == const_end(t@, i as int),
        decreases t.len() - i,
    {
        i = i + 6;
    }
    let mut e = i;
    while e < t.len() && !is_type_break(t[e])
        invariant
            i <= e <= t.len(),
            name_end(t@, i as int) == name_end(t@, e as int),
        decreases t.len() - e,
    {
        e = e + 1;
    }
    let mut name: Vec<char> = Vec::new();
    let mut m = i;
    while m < e
        invariant
            i <= m <= e <= t.len(),
            name@ == t@.subrange(i as int, m as int),
        decreases e - m,
    {
        name.push(t[m]);
        m = m + 1;
        assert(name@ =~= t@.subrange(i as int, m as int));
    }
    let ghost tn = referenced_type(t@);
    assert(name@ == tn);
    let builtin: [&[char]; 7] = [&['i', 'n', 't'], &['b', 'o', 'o', 'l'], &['f', 'l', 'o', 'a', 't'], &['c', 'h', 'a',
        'r'], &['a', 'n', 'y'], &['v', 'o', 'i', 'd'], &['i', 'n', 't', '6', '4']];
    let ghost bs = builtin_types();
    assert(forall|q: int| 0 <= q < 7 ==> (#[trigger] builtin@[q])@ == bs[q]);
    let mut b: usize = 0;
    while b < 7
        invariant
            b <= 7,
            bs == builtin_types(),
            forall|q: int| 0 <= q < 7 ==> (#[trigger] builtin@[q])@ == bs[q],
            forall|q: int| 0 <= q < b ==> bs[q] != name@,
            name@ == referenced_type(t@),
        decreases 7 - b,
    {
        if chars_eq(name.as_slice(), builtin[b]) {
            assert(bs[b as int] == name@);
            assert(bs.contains(name@));
            return true;
        }
        b = b + 1;
    }
    assert(!bs.contains(name@));
    let r = has(local, name.as_slice());
    proof {
        let lv = local@.map_values(|w: Vec<char>| w@);
        if r {
            let j = choose|j: int| 0 <= j < local@.len() && (#[trigger] local@[j])@ == name@;
            assert(lv[j] == name@);
        } else {
            if lv.contains(name@) {
                let j = choose|j: int| 0 <= j < lv.len() && lv[j] == name@;
                assert(local@[j]@ == name@);
            }
        }
    }
    r
}

/// Trailing `&`s of `ty` stripped back from `e`
pub open spec fn amp_end(ty: Seq<char>, e: int) -> int
    decreases e,
{
    if 0 < e <= ty.len() && ty[e - 1] == '&' {
        amp_end(ty, e - 1)
    } else {
        e
    }
}

/// Trailing `...`s of `ty` stripped back from `e`
pub open spec fn dots_end(ty: Seq<char>, e: int) -> int
    decreases e,
{
    if 3 <= e <= ty.len() && ty[e - 3] == '.' && ty[e - 2] == '.' && ty[e - 1] == '.' {
        dots_end(ty, e - 3)
    } else {
        e
    }
}

/// Trailing white space of `ty` stripped back from `e`
pub open spec fn space_end(ty: Seq<char>, e: int) -> int
    decreases e,
{
    if 0 < e <= ty.len() && unicode_white_space(ty[e - 1]) {
        space_end(ty, e - 1)
    } else {
        e
    }
}

/// The type and declaration of an argument as docparse printed them: a rest
/// parameter (named `...`) as `Type...` when its type is local and `Type ...`
/// otherwise; a by-reference argument of a foreign type as `Type &name`;
/// others as they are
pub open spec fn fixed_argument(a: Argument, local: Seq<Seq<char>>) -> (Seq<char>, Seq<char>) {
    let ty = a.ty@;
    if a.name@ == seq!['.', '.', '.'] {
        let base = ty.subrange(0, space_end(ty, dots_end(ty, ty.len() as int)));
        let t = base + (if names_local(base, local) { Seq::<char>::empty() } else { seq![' '] }) + seq!['.', '.', '.'];
        (t, t)
    } else if ty.len() > 0 && ty.last() == '&' && !names_local(ty, local) {
        (ty, ty.subrange(0, amp_end(ty, ty.len() as int)) + seq![' ', '&'] + a.name@)
    } else {
        (ty, a.decl@)
    }
}

/// `g` is `f` with its arguments printed as docparse printed them
pub open spec fn function_fixed(f: Function, local: Seq<Seq<char>>, g: Function) -> bool {
    &&& g.declaration == f.declaration
    &&& g.kind == f.kind
    &&& g.return_type == f.return_type
    &&& g.arguments@.len() == f.arguments@.len()
    &&& forall|i: int| 0 <= i < f.arguments@.len() ==> {
        let a = #[trigger] f.arguments@[i];
        let b = g.arguments@[i];
        &&& (b.ty@, b.decl@) == fixed_argument(a, local)
        &&& b.name@ == a.name@
        &&& crate::chronicle::opt_text(b.default) == crate::chronicle::opt_text(a.default)
    }
}

/// `b` is the map of functions `a` with each function's arguments printed as
/// docparse printed them
pub open spec fn methods_fixed(a: SymbolMap<Function>, b: SymbolMap<Function>, local: Seq<Seq<char>>) -> bool {
    &&& b.keys() == a.keys()
    &&& forall|q: Seq<char>| #[trigger] a.contains_spec(q) ==> b.contains_spec(q)
    &&& forall|q: Seq<char>| #[trigger] b.contains_spec(q) ==> a.contains_spec(q)
    &&& forall|q: Seq<char>| a.contains_spec(q) ==> function_fixed(a.get_spec(q)->0, local, #[trigger] b.get_spec(q)->0)
}

/// `b` is methodmap `a` with its methods' arguments fixed
pub open spec fn methodmap_fixed(a: MethodMap, b: MethodMap, local: Seq<Seq<char>>) -> bool {
    &&& b.declaration == a.declaration
    &&& b.parent == a.parent
    &&& b.properties == a.properties
    &&& methods_fixed(a.methods, b.methods, local)
}

/// `b` is enum struct `a` with its methods' arguments fixed
pub open spec fn enumstruct_fixed(a: EnumStruct, b: EnumStruct, local: Seq<Seq<char>>) -> bool {
    &&& b.declaration == a.declaration
    &&& b.fields == a.fields
    &&& methods_fixed(a.methods, b.methods, local)
}

/// The types a strand declares: its enums, methodmaps, enum structs,
/// typedefs and typesets
pub open spec fn local_names(s: Strand) -> Seq<Seq<char>> {
    s.enums.keys() + s.methodmaps.keys() + s.enumstructs.keys() + s.typedefs.keys() + s.typesets.keys()
}

/// Rest and by-reference arguments as docparse printed them: unresolved
/// by-reference types as `Handle &name`, rest parameters of types it could
/// resolve as `Type...` and all others as `Type ...`
fn fix_function(f: Function, local: &Vec<Vec<char>>) -> (r: Function)
    ensures
        function_fixed(f, local@.map_values(|w: Vec<char>| w@), r),
{
    let ghost lv = local@.map_values(|w: Vec<char>| w@);
    let Function { declaration, kind, return_type, arguments } = f;
    let mut args: Vec<Argument> = Vec::new();
    let mut k: usize = 0;
    while k < arguments.len()
        invariant
            k <= arguments.len(),
            arguments == f.arguments,
            lv == local@.map_values(|w: Vec<char>| w@),
            args@.len() == k,
            forall|i: int| 0 <= i < k ==> {
                let a = #[trigger] arguments@[i];
                let b = args@[i];
                &&& (b.ty@, b.decl@) == fixed_argument(a, lv)
                &&& b.name@ == a.name@
                &&& crate::chronicle::opt_text(b.default) == crate::chronicle::opt_text(a.default)
            },
        decreases arguments.len() - k,
    {
        let a = &arguments[k];
        let name = chars_of(a.name.as_str());
        let ty = chars_of(a.ty.as_str());
        let rest = chars_eq(name.as_slice(), &['.', '.', '.']);
        let mut decl = chars_of(a.decl.as_str());
        if !rest && ty.len() > 0 && ty[ty.len() - 1] == '&' && !is_local(&ty, local) {
            let mut e = ty.len();
            while e > 0 && ty[e - 1] == '&'
                invariant
                    e <= ty.len(),
                    amp_end(ty@, ty@.len() as int) == amp_end(ty@, e as int),
                decreases e,
            {
                e = e - 1;
            }
            let mut d: Vec<char> = Vec::new();
            let mut m: usize = 0;
            while m < e
                invariant
                    e <= ty.len(),
                    m <= e,
                    d@ == ty@.subrange(0, m as int),
                decreases e - m,
            {
                d.push(ty[m]);
                m = m + 1;
                assert(d@ =~= ty@.subrange(0, m as int));
            }
            d.push(' ');
            d.push('&');
            push_all(&mut d, name.as_slice());
            assert(d@ =~= ty@.subrange(0, e as int) + seq![' ', '&'] + name@);
            decl = d;
        }
        let mut new_ty = ty.clone();
        if rest {
            let mut e = ty.len();
            while e >= 3 && ty[e - 3] == '.' && ty[e - 2] == '.' && ty[e - 1] == '.'
                invariant
                    e <= ty.len(),
                    dots_end(ty@, ty@.len() as int) == dots_end(ty@, e as int),
                decreases e,
            {
                e = e - 3;
            }
            let ghost de = e;
            while e > 0 && char_is_whitespace(ty[e - 1])
                invariant
                    e <= ty.len(),
                    space_end(ty@, de as int) == space_end(ty@, e as int),
                decreases e,
            {
                e = e - 1;
            }
            let mut base: Vec<char> = Vec::new();
            let mut m: usize = 0;
            while m < e
                invariant
                    e <= ty.len(),
                    m <= e,
                    base@ == ty@.subrange(0, m as int),
                decreases e - m,
            {
                base.push(ty[m]);
                m = m + 1;
                assert(base@ =~= ty@.subrange(0, m as int));
            }
            let mut t = base.clone();
            let local_base = is_local(&base, local);
            if !local_base {
                t.push(' ');
            }
            push_all(&mut t, &['.', '.', '.']);
            assert(t@ =~= base@ + (if local_base { Seq::<char>::empty() } else { seq![' '] }) + seq!['.', '.', '.']);
            new_ty = t.clone();
            decl = t;
        }
        let default = match &a.default {
            Some(v) => Some(v.clone()),
            None => None,
        };
        args.push(Argument { ty: to_string(&new_ty), name: a.name.clone(), decl: to_string(&decl), default: default });
        k = k + 1;
    }
    Function { declaration: declaration, kind: kind, return_type: return_type, arguments: args }
}

/// An empty declaration, for a symbol standing in for one taken out of a map
fn placeholder_declaration() -> (d: Declaration)
    ensures
        d.name@ == Seq::<char>::empty(),
        d.documentation.ref_line == 0,
        d.documentation.doc_start.0 == 0,
        d.documentation.doc_end.0 == 0,
        d.documentation.docs is None,
        d.documentation.metadata is None,
{
    Declaration {
        name: String::new(),
        documentation: Documentation {
            ref_line: 0,
            doc_start: DocLocation(0),
            doc_end: DocLocation(0),
            docs: None,
            metadata: None,
        },
    }
}

/// A function standing in for one taken out of a map
fn placeholder_function() -> (f: Function)
    ensures
        f.declaration.name@ == Seq::<char>::empty(),
        f.declaration.documentation.ref_line == 0,
        f.declaration.documentation.doc_start.0 == 0,
        f.declaration.documentation.doc_end.0 == 0,
        f.declaration.documentation.docs is None,
        f.declaration.documentation.metadata is None,
        f.kind@ == Seq::<char>::empty(),
        f.return_type@ == Seq::<char>::empty(),
        f.arguments@.len() == 0,
{
    Function {
        declaration: placeholder_declaration(),
        kind: String::new(),
        return_type: String::new(),
        arguments: Vec::new(),
    }
}

fn fix_functions(m: &mut SymbolMap<Function>, local: &Vec<Vec<char>>)
    requires
        keyed(*old(m)),
    ensures
        keyed(*final(m)),
        final(m).keys() == old(m).keys(),
        methods_fixed(*old(m), *final(m), local@.map_values(|w: Vec<char>| w@)),
{
    let ghost lv = local@.map_values(|w: Vec<char>| w@);
    let ghost ks = m.keys();
    let n = m.len();
    let mut k: usize = 0;
    while k < n
        invariant
            n == ks.len(),
            ks == old(m).keys(),
            ks.no_duplicates(),
            lv == local@.map_values(|w: Vec<char>| w@),
            forall|q: Seq<char>| #[trigger] old(m).contains_spec(q) ==> m.contains_spec(q),
            forall|q: Seq<char>| #[trigger] m.contains_spec(q) ==> old(m).contains_spec(q),
            k <= n,
            keyed(*m),
            m.keys() == ks,
            forall|j: int| 0 <= j < k ==> function_fixed(old(m).get_spec(ks[j])->0, lv, #[trigger] m.get_spec(ks[j])->0),
            forall|j: int| k <= j < n ==> #[trigger] m.get_spec(ks[j]) == old(m).get_spec(ks[j]),
        decreases n - k,
    {
        let ghost before = *m;
        let ghost kk = ks[k as int];
        let f = m.replace_at(k, placeholder_function());
        let g = fix_function(f, local);
        proof {
            assert(before.contains_spec(kk));
        }
        let _ = m.replace_at(k, g);
        proof {
            assert forall|q: Seq<char>| #[trigger] m.get_spec(q) == if q == kk {
                Some(g)
            } else {
                before.get_spec(q)
            } by {
            }
            crate::chronicle::lemma_keyed_insert(before, *m, kk, g);
            assert forall|q: Seq<char>| #[trigger] old(m).contains_spec(q) implies m.contains_spec(q) by {
                assert(before.contains_spec(q));
            }
            assert forall|q: Seq<char>| #[trigger] m.contains_spec(q) implies old(m).contains_spec(q) by {
                if q != kk {
                    assert(before.contains_spec(q));
                }
            }
            assert forall|j: int| 0 <= j < k + 1 implies function_fixed(
                old(m).get_spec(ks[j])->0,
                lv,
                #[trigger] m.get_spec(ks[j])->0,
            ) by {
                if j < k {
                    assert(ks[j] != kk);
                    assert(m.get_spec(ks[j]) == before.get_spec(ks[j]));
                } else {
                    assert(before.get_spec(kk) == old(m).get_spec(kk));
                }
            }
            assert forall|j: int| k + 1 <= j < n implies #[trigger] m.get_spec(ks[j]) == old(m).get_spec(ks[j]) by {
                assert(ks[j] != kk);
                assert(before.get_spec(ks[j]) == old(m).get_spec(ks[j]));
            }
        }
        k = k + 1;
    }
    proof {
        assert forall|q: Seq<char>| old(m).contains_spec(q) implies function_fixed(
            old(m).get_spec(q)->0,
            lv,
            #[trigger] m.get_spec(q)->0,
        ) by {
            crate::schema::symbol_map::lemma_contains_keys(*old(m), q);
            let j = choose|j: int| 0 <= j < ks.len() && ks[j] == q;
            assert(function_fixed(old(m).get_spec(ks[j])->0, lv, m.get_spec(ks[j])->0));
        }
    }
}

impl<'a> Extractor<'a> {
    /// docparse printed rest parameters of types it couldn't resolve (types
    /// declared in other files) as `Type ...` and all others as `Type...`
    fn space_foreign_rest_types(&mut self)
        requires
            strand_keyed(old(self).strand),
        ensures
            final(self).text == old(self).text,
            final(self).source == old(self).source,
            final(self).pp == old(self).pp,
            final(self).comments == old(self).comments,
            final(self).line_starts == old(self).line_starts,
            strand_keyed(final(self).strand),
            strand_grows(old(self).strand, final(self).strand),
            methods_fixed(old(self).strand.functions, final(self).strand.functions, local_names(old(self).strand)),
            final(self).strand.methodmaps.keys() == old(self).strand.methodmaps.keys(),
            forall|q: Seq<char>| #[trigger] final(self).strand.methodmaps.contains_spec(q) ==> old(self).strand.methodmaps.contains_spec(q),
            forall|q: Seq<char>|
                old(self).strand.methodmaps.contains_spec(q) ==> methodmap_fixed(
                    old(self).strand.methodmaps.get_spec(q)->0,
                    #[trigger] final(self).strand.methodmaps.get_spec(q)->0,
                    local_names(old(self).strand),
                ),
            final(self).strand.enumstructs.keys() == old(self).strand.enumstructs.keys(),
            forall|q: Seq<char>| #[trigger] final(self).strand.enumstructs.contains_spec(q) ==> old(self).strand.enumstructs.contains_spec(q),
            forall|q: Seq<char>|
                old(self).strand.enumstructs.contains_spec(q) ==> enumstruct_fixed(
                    old(self).strand.enumstructs.get_spec(q)->0,
                    #[trigger] final(self).strand.enumstructs.get_spec(q)->0,
                    local_names(old(self).strand),
                ),
            final(self).strand.enums == old(self).strand.enums,
            final(self).strand.typedefs == old(self).strand.typedefs,
            final(self).strand.constants == old(self).strand.constants,
            final(self).strand.defines == old(self).strand.defines,
            final(self).strand.typesets == old(self).strand.typesets,
    {
        let ghost s0 = self.strand;
        let mut local: Vec<Vec<char>> = Vec::new();
        push_keys(&mut local, &self.strand.enums);
        push_keys(&mut local, &self.strand.methodmaps);
        push_keys(&mut local, &self.strand.enumstructs);
        push_keys(&mut local, &self.strand.typedefs);
        push_keys(&mut local, &self.strand.typesets);
        let ghost lv = local@.map_values(|w: Vec<char>| w@);
        assert(lv =~= local_names(s0));
        fix_functions(&mut self.strand.functions, &local);
        let ghost f1 = self.strand.functions;
        proof {
            assert forall|q: Seq<char>| #[trigger] s0.functions.contains_spec(q) implies self.strand.functions.contains_spec(q) by {}
        }
        let ghost mm0 = self.strand.methodmaps;
        let ghost mmks = mm0.keys();
        let mmn = self.strand.methodmaps.len();
        let mut k: usize = 0;
        while k < mmn
            invariant
                self.source == old(self).source,
                self.pp == old(self).pp,
                self.comments == old(self).comments,
                self.line_starts == old(self).line_starts,
                strand_grows(old(self).strand, self.strand),
                self.text == old(self).text,
                strand_keyed(self.strand),
                self.strand.functions == f1,
                self.strand.enumstructs == s0.enumstructs,
                self.strand.enums == s0.enums,
                self.strand.constants == s0.constants,
                self.strand.defines == s0.defines,
                self.strand.typesets == s0.typesets,
                self.strand.typedefs == s0.typedefs,
                lv == local@.map_values(|w: Vec<char>| w@),
                mmn == mmks.len(),
                mmks.no_duplicates(),
                self.strand.methodmaps.keys() == mmks,
                forall|q: Seq<char>| #[trigger] mm0.contains_spec(q) ==> self.strand.methodmaps.contains_spec(q),
                forall|q: Seq<char>| #[trigger] self.strand.methodmaps.contains_spec(q) ==> mm0.contains_spec(q),
                forall|j: int| 0 <= j < k ==> methodmap_fixed(mm0.get_spec(mmks[j])->0, #[trigger] self.strand.methodmaps.get_spec(mmks[j])->0, lv),
                forall|j: int| k <= j < mmn ==> #[trigger] self.strand.methodmaps.get_spec(mmks[j]) == mm0.get_spec(mmks[j]),
                k <= mmn,
            decreases mmn - k,
        {
            let ghost before = self.strand.methodmaps;
            let ghost kk = mmks[k as int];
            let placeholder = MethodMap {
                declaration: placeholder_declaration(),
                parent: None,
                methods: SymbolMap::new(),
                properties: SymbolMap::new(),
            };
            let mut x = self.strand.methodmaps.replace_at(k, placeholder);
            proof {
                assert(before.contains_spec(kk));
            }
            let ghost x0 = x;
            fix_functions(&mut x.methods, &local);
            let _ = self.strand.methodmaps.replace_at(k, x);
            proof {
                crate::chronicle::lemma_keyed_insert(before, self.strand.methodmaps, kk, x);
                assert(methodmap_fixed(x0, x, lv));
                assert forall|q: Seq<char>| #[trigger] mm0.contains_spec(q) implies self.strand.methodmaps.contains_spec(q) by {
                    assert(before.contains_spec(q));
                }
                assert forall|q: Seq<char>| #[trigger] self.strand.methodmaps.contains_spec(q) implies mm0.contains_spec(q) by {
                    if q != kk {
                        assert(before.contains_spec(q));
                    }
                }
                assert forall|j: int| 0 <= j < k + 1 implies methodmap_fixed(mm0.get_spec(mmks[j])->0, #[trigger] self.strand.methodmaps.get_spec(mmks[j])->0, lv) by {
                    if j < k {
                        assert(mmks[j] != kk);
                        assert(self.strand.methodmaps.get_spec(mmks[j]) == before.get_spec(mmks[j]));
                    } else {
                        assert(before.get_spec(kk) == mm0.get_spec(kk));
                    }
                }
                assert forall|j: int| k + 1 <= j < mmn implies #[trigger] self.strand.methodmaps.get_spec(mmks[j]) == mm0.get_spec(mmks[j]) by {
                    assert(mmks[j] != kk);
                    assert(before.get_spec(mmks[j]) == mm0.get_spec(mmks[j]));
                }
                assert(strand_grows(old(self).strand, self.strand)) by {
                    assert forall|q: Seq<char>| #[trigger] old(self).strand.methodmaps.contains_spec(q) implies self.strand.methodmaps.contains_spec(q) by {
                        assert(before.contains_spec(q));
                    }
                }
            }
            k = k + 1;
        }
        proof {
            assert forall|q: Seq<char>| mm0.contains_spec(q) implies methodmap_fixed(mm0.get_spec(q)->0, #[trigger] self.strand.methodmaps.get_spec(q)->0, lv) by {
                crate::schema::symbol_map::lemma_contains_keys(mm0, q);
                let j = choose|j: int| 0 <= j < mmks.len() && mmks[j] == q;
                assert(methodmap_fixed(mm0.get_spec(mmks[j])->0, self.strand.methodmaps.get_spec(mmks[j])->0, lv));
            }
        }
        let ghost m1 = self.strand.methodmaps;
        let ghost es0 = self.strand.enumstructs;
        let ghost esks = es0.keys();
        let esn = self.strand.enumstructs.len();
        let mut k: usize = 0;
        while k < esn
            invariant
                self.source == old(self).source,
                self.pp == old(self).pp,
                self.comments == old(self).comments,
                self.line_starts == old(self).line_starts,
                strand_grows(old(self).strand, self.strand),
                self.text == old(self).text,
                strand_keyed(self.strand),
                self.strand.functions == f1,
                self.strand.methodmaps == m1,
                self.strand.enums == s0.enums,
                self.strand.constants == s0.constants,
                self.strand.defines == s0.defines,
                self.strand.typesets == s0.typesets,
                self.strand.typedefs == s0.typedefs,
                lv == local@.map_values(|w: Vec<char>| w@),
                esn == esks.len(),
                esks.no_duplicates(),
                self.strand.enumstructs.keys() == esks,
                forall|q: Seq<char>| #[trigger] es0.contains_spec(q) ==> self.strand.enumstructs.contains_spec(q),
                forall|q: Seq<char>| #[trigger] self.strand.enumstructs.contains_spec(q) ==> es0.contains_spec(q),
                forall|j: int| 0 <= j < k ==> enumstruct_fixed(es0.get_spec(esks[j])->0, #[trigger] self.strand.enumstructs.get_spec(esks[j])->0, lv),
                forall|j: int| k <= j < esn ==> #[trigger] self.strand.enumstructs.get_spec(esks[j]) == es0.get_spec(esks[j]),
                k <= esn,
            decreases esn - k,
        {
            let ghost before = self.strand.enumstructs;
            let ghost kk = esks[k as int];
            let placeholder = EnumStruct {
                declaration: placeholder_declaration(),
                methods: SymbolMap::new(),
                fields: SymbolMap::new(),
            };
            let mut x = self.strand.enumstructs.replace_at(k, placeholder);
            proof {
                assert(before.contains_spec(kk));
            }
            let ghost x0 = x;
            fix_functions(&mut x.methods, &local);
            let _ = self.strand.enumstructs.replace_at(k, x);
            proof {
                crate::chronicle::lemma_keyed_insert(before, self.strand.enumstructs, kk, x);
                assert(enumstruct_fixed(x0, x, lv));
                assert forall|q: Seq<char>| #[trigger] es0.contains_spec(q) implies self.strand.enumstructs.contains_spec(q) by {
                    assert(before.contains_spec(q));
                }
                assert forall|q: Seq<char>| #[trigger] self.strand.enumstructs.contains_spec(q) implies es0.contains_spec(q) by {
                    if q != kk {
                        assert(before.contains_spec(q));
                    }
                }
                assert forall|j: int| 0 <= j < k + 1 implies enumstruct_fixed(es0.get_spec(esks[j])->0, #[trigger] self.strand.enumstructs.get_spec(esks[j])->0, lv) by {
                    if j < k {
                        assert(esks[j] != kk);
                        assert(self.strand.enumstructs.get_spec(esks[j]) == before.get_spec(esks[j]));
                    } else {
                        assert(before.get_spec(kk) == es0.get_spec(kk));
                    }
                }
                assert forall|j: int| k + 1 <= j < esn implies #[trigger] self.strand.enumstructs.get_spec(esks[j]) == es0.get_spec(esks[j]) by {
                    assert(esks[j] != kk);
                    assert(before.get_spec(esks[j]) == es0.get_spec(esks[j]));
                }
                assert(strand_grows(old(self).strand, self.strand)) by {
                    assert forall|q: Seq<char>| #[trigger] old(self).strand.enumstructs.contains_spec(q) implies self.strand.enumstructs.contains_spec(q) by {
                        assert(before.contains_spec(q));
                    }
                }
            }
            k = k + 1;
        }
        proof {
            assert forall|q: Seq<char>| es0.contains_spec(q) implies enumstruct_fixed(es0.get_spec(q)->0, #[trigger] self.strand.enumstructs.get_spec(q)->0, lv) by {
                crate::schema::symbol_map::lemma_contains_keys(es0, q);
                let j = choose|j: int| 0 <= j < esks.len() && esks[j] == q;
                assert(enumstruct_fixed(es0.get_spec(esks[j])->0, self.strand.enumstructs.get_spec(esks[j])->0, lv));
            }
        }
    }
}

} // verus!
