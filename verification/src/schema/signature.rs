//! Parsing of rendered function signatures.

use vstd::prelude::*;
use crate::text::{chars_of, string_from_chars, has_at, chars_at};
use super::{Argument, TypeSignature};

verus! {

/// Rust's `split`: the pieces of `s` between non-overlapping occurrences of
/// `sep`, found left to right; `start` is where the current piece began
pub open spec fn split_from(s: Seq<char>, sep: Seq<char>, start: int, i: int) -> Seq<Seq<char>>
    decreases s.len() + 1 - i,
{
    if sep.len() == 0 || i < 0 || i + sep.len() > s.len() {
        seq![s.subrange(start, s.len() as int)]
    } else if has_at(s, i, sep) {
        seq![s.subrange(start, i)] + split_from(s, sep, i + sep.len(), i + sep.len())
    } else {
        split_from(s, sep, start, i + 1)
    }
}

pub open spec fn split(s: Seq<char>, sep: Seq<char>) -> Seq<Seq<char>> {
    split_from(s, sep, 0, 0)
}

/// The argument a `<type> <name>` or `<qualifier> <type> <name> ...`
/// piece describes, as (type, name, declaration)
pub open spec fn argument_of(piece: Seq<char>) -> Option<(Seq<char>, Seq<char>, Seq<char>)> {
    let parts = split(piece, seq![' ']);
    if parts.len() == 2 {
        Some((parts[0], parts[1], piece))
    } else if parts.len() > 2 {
        Some((parts[0] + seq![' '] + parts[1], parts[2], piece))
    } else {
        None
    }
}

/// The arguments of the pieces before `k`, skipping pieces of one word
pub open spec fn arguments_of(pieces: Seq<Seq<char>>, k: int) -> Seq<(Seq<char>, Seq<char>, Seq<char>)>
    decreases k,
{
    if k <= 0 || k > pieces.len() {
        Seq::empty()
    } else {
        match argument_of(pieces[k - 1]) {
            Some(a) => arguments_of(pieces, k - 1).push(a),
            None => arguments_of(pieces, k - 1),
        }
    }
}

/// First index at or after `i` holding `c`
pub open spec fn first_index(s: Seq<char>, c: char, i: int) -> Option<int>
    decreases s.len() - i,
{
    if i < 0 || i >= s.len() {
        None
    } else if s[i] == c {
        Some(i)
    } else {
        first_index(s, c, i + 1)
    }
}

/// Last index before `k` holding `c`
pub open spec fn last_index(s: Seq<char>, c: char, k: int) -> Option<int>
    decreases k,
{
    if k <= 0 || k > s.len() {
        None
    } else if s[k - 1] == c {
        Some(k - 1)
    } else {
        last_index(s, c, k - 1)
    }
}

pub open spec fn function_prefix() -> Seq<char> {
    seq!['f', 'u', 'n', 'c', 't', 'i', 'o', 'n', ' ']
}

/// The return type and arguments of `function <return>(<args>)`: the
/// return type runs up to the first `(`, the arguments up to the last `)`
/// and are separated by `, `
pub open spec fn signature_of(s: Seq<char>) -> Option<(Seq<char>, Seq<(Seq<char>, Seq<char>, Seq<char>)>)> {
    if !has_at(s, 0, function_prefix()) {
        None
    } else {
        let sig = s.subrange(9, s.len() as int);
        match (first_index(sig, '(', 0), last_index(sig, ')', sig.len() as int)) {
            (Some(ps), Some(pe)) => if pe < ps {
                None
            } else {
                let pieces = split(sig.subrange(ps + 1, pe), seq![',', ' ']);
                Some((sig.subrange(0, ps), arguments_of(pieces, pieces.len() as int)))
            },
            _ => None,
        }
    }
}

/// An argument as (type, name, declaration), when it has no default
pub open spec fn argument_view(a: Argument) -> (Seq<char>, Seq<char>, Seq<char>) {
    (a.ty@, a.name@, a.decl@)
}

pub open spec fn arguments_view(args: Seq<Argument>) -> Seq<(Seq<char>, Seq<char>, Seq<char>)> {
    args.map_values(|a: Argument| argument_view(a))
}

fn sub_chars(s: &Vec<char>, a: usize, b: usize) -> (r: Vec<char>)
    requires
        a <= b <= s.len(),
    ensures
        r@ == s@.subrange(a as int, b as int),
{
    let mut r: Vec<char> = Vec::new();
    let mut i = a;
    while i < b
        invariant
            a <= i <= b <= s.len(),
            r@ == s@.subrange(a as int, i as int),
        decreases b - i,
    {
        r.push(s[i]);
        i = i + 1;
        assert(r@ =~= s@.subrange(a as int, i as int));
    }
    r
}

pub open spec fn pieces_view(ps: Seq<Vec<char>>) -> Seq<Seq<char>> {
    ps.map_values(|p: Vec<char>| p@)
}

/// Splits `s` on `sep` like `str::split`
pub fn split_chars(s: &Vec<char>, sep: &[char]) -> (r: Vec<Vec<char>>)
    requires
        sep.len() > 0,
    ensures
        pieces_view(r@) == split(s@, sep@),
{
    let mut out: Vec<Vec<char>> = Vec::new();
    let mut start: usize = 0;
    let mut i: usize = 0;
    while i <= s.len() && sep.len() <= s.len() - i
        invariant
            sep.len() > 0,
            start <= i,
            i <= s.len(),
            split(s@, sep@) == pieces_view(out@) + split_from(s@, sep@, start as int, i as int),
        decreases s.len() + 1 - i,
    {
        if chars_at(s.as_slice(), i, sep) {
            let piece = sub_chars(s, start, i);
            let ghost before = out@;
            out.push(piece);
            assert(pieces_view(out@) =~= pieces_view(before).push(piece@));
            i = i + sep.len();
            start = i;
        } else {
            i = i + 1;
        }
    }
    let piece = sub_chars(s, start, s.len());
    let ghost before = out@;
    out.push(piece);
    assert(pieces_view(out@) =~= pieces_view(before).push(piece@));
    assert(pieces_view(out@) =~= pieces_view(before) + seq![piece@]);
    out
}

fn join_space(a: &Vec<char>, b: &Vec<char>) -> (r: Vec<char>)
    ensures
        r@ == a@ + seq![' '] + b@,
{
    let mut r = sub_chars(a, 0, a.len());
    assert(a@.subrange(0, a@.len() as int) =~= a@);
    r.push(' ');
    let mut i: usize = 0;
    let ghost base = r@;
    while i < b.len()
        invariant
            i <= b.len(),
            r@ == base + b@.subrange(0, i as int),
        decreases b.len() - i,
    {
        r.push(b[i]);
        i = i + 1;
        assert(r@ =~= base + b@.subrange(0, i as int));
    }
    assert(b@.subrange(0, b@.len() as int) =~= b@);
    r
}

fn argument_from(piece: &Vec<char>) -> (r: Option<Argument>)
    ensures
        match r {
            Some(a) => argument_of(piece@) == Some(argument_view(a)) && a.default is None,
            None => argument_of(piece@) is None,
        },
{
    let parts = split_chars(piece, &[' ']);
    assert(seq![' '] =~= [' ']@);
    proof {
        assert(pieces_view(parts@).len() == parts@.len());
    }
    if parts.len() == 2 {
        assert(pieces_view(parts@)[0] == parts@[0]@ && pieces_view(parts@)[1] == parts@[1]@);
        Some(Argument {
            ty: string_from_chars(parts[0].as_slice()),
            name: string_from_chars(parts[1].as_slice()),
            decl: string_from_chars(piece.as_slice()),
            default: None,
        })
    } else if parts.len() > 2 {
        assert(pieces_view(parts@)[0] == parts@[0]@ && pieces_view(parts@)[1] == parts@[1]@
            && pieces_view(parts@)[2] == parts@[2]@);
        let t = join_space(&parts[0], &parts[1]);
        Some(Argument {
            ty: string_from_chars(t.as_slice()),
            name: string_from_chars(parts[2].as_slice()),
            decl: string_from_chars(piece.as_slice()),
            default: None,
        })
    } else {
        None
    }
}

/// Parses a `function <return>(<args>)` signature as rendered in a type.
///
/// Returns `None` for anything that isn't a function signature, such as
/// `int64`.
pub fn parse_type_signature(s: &str) -> (r: Option<TypeSignature>)
    ensures
        match r {
            Some(t) => signature_of(s@) == Some((t.return_type@, arguments_view(t.arguments@)))
                && forall|i: int| 0 <= i < t.arguments@.len() ==> (#[trigger] t.arguments@[i]).default is None,
            None => signature_of(s@) is None,
        },
{
    let cs = chars_of(s);
    let prefix = ['f', 'u', 'n', 'c', 't', 'i', 'o', 'n', ' '];
    assert(prefix@ == function_prefix());
    if !chars_at(cs.as_slice(), 0, &prefix) {
        return None;
    }
    let sig = sub_chars(&cs, 9, cs.len());
    let mut ps: usize = 0;
    while ps < sig.len() && sig[ps] != '('
        invariant
            ps <= sig.len(),
            first_index(sig@, '(', 0) == first_index(sig@, '(', ps as int),
        decreases sig.len() - ps,
    {
        ps = ps + 1;
    }
    if ps >= sig.len() {
        return None;
    }
    let mut pe: usize = sig.len();
    while pe > 0 && sig[pe - 1] != ')'
        invariant
            pe <= sig.len(),
            last_index(sig@, ')', sig@.len() as int) == last_index(sig@, ')', pe as int),
        decreases pe,
    {
        pe = pe - 1;
    }
    if pe == 0 {
        return None;
    }
    let pe = pe - 1;
    if pe < ps {
        return None;
    }
    let return_type = sub_chars(&sig, 0, ps);
    let section = sub_chars(&sig, ps + 1, pe);
    let pieces = split_chars(&section, &[',', ' ']);
    assert(seq![',', ' '] =~= [',', ' ']@);
    let mut arguments: Vec<Argument> = Vec::new();
    let mut k: usize = 0;
    while k < pieces.len()
        invariant
            k <= pieces.len(),
            arguments_view(arguments@) == arguments_of(pieces_view(pieces@), k as int),
            forall|i: int| 0 <= i < arguments@.len() ==> (#[trigger] arguments@[i]).default is None,
        decreases pieces.len() - k,
    {
        assert(pieces_view(pieces@)[k as int] == pieces@[k as int]@);
        match argument_from(&pieces[k]) {
            Some(a) => {
                let ghost before = arguments@;
                arguments.push(a);
                assert(arguments_view(arguments@) =~= arguments_view(before).push(argument_view(a)));
            },
            None => {},
        }
        k = k + 1;
    }
    Some(TypeSignature { return_type: string_from_chars(return_type.as_slice()), arguments: arguments })
}

/// The separator of declarations
pub open spec fn comma_space() -> Seq<char> {
    seq![',', ' ']
}

/// The separator of words
pub open spec fn one_space() -> Seq<char> {
    seq![' ']
}

/// The pieces joined with `, ` between them
pub open spec fn joined(ds: Seq<Seq<char>>) -> Seq<char>
    decreases ds.len(),
{
    if ds.len() == 0 {
        Seq::empty()
    } else if ds.len() == 1 {
        ds[0]
    } else {
        ds[0] + comma_space() + joined(ds.drop_first())
    }
}

/// `function <ret>(<d1>, <d2>, ..)`
pub open spec fn signature_text(ret: Seq<char>, ds: Seq<Seq<char>>) -> Seq<char> {
    function_prefix() + ret + seq!['('] + joined(ds) + seq![')']
}

/// A declaration a signature can hold: two words or more, and no `, `
pub open spec fn plain_decl(d: Seq<char>) -> bool {
    &&& exists|k: int| 0 <= k < d.len() && d[k] == ' '
    &&& forall|k: int| !#[trigger] has_at(d, k, comma_space())
}

proof fn lemma_split_found(s: Seq<char>, sep: Seq<char>, start: int, i: int, p: int)
    requires
        sep.len() > 0,
        0 <= start <= i <= p,
        has_at(s, p, sep),
        forall|k: int| i <= k < p ==> !#[trigger] has_at(s, k, sep),
    ensures
        split_from(s, sep, start, i) == seq![s.subrange(start, p)] + split_from(s, sep, p + sep.len(), p + sep.len()),
    decreases p - i,
{
    if i < p {
        assert(!has_at(s, i, sep));
        lemma_split_found(s, sep, start, i + 1, p);
    }
}

proof fn lemma_split_none(s: Seq<char>, sep: Seq<char>, start: int, i: int)
    requires
        sep.len() > 0,
        0 <= start <= i,
        start <= s.len(),
        forall|k: int| i <= k ==> !#[trigger] has_at(s, k, sep),
    ensures
        split_from(s, sep, start, i) == seq![s.subrange(start, s.len() as int)],
    decreases s.len() + 1 - i,
{
    if i + sep.len() <= s.len() {
        assert(!has_at(s, i, sep));
        lemma_split_none(s, sep, start, i + 1);
    }
}

proof fn lemma_split_shift(a: Seq<char>, b: Seq<char>, sep: Seq<char>, start: int, i: int)
    requires
        sep.len() > 0,
        0 <= start <= i,
        start <= b.len(),
    ensures
        split_from(a + b, sep, a.len() + start, a.len() + i) == split_from(b, sep, start, i),
    decreases b.len() + 1 - i,
{
    let s = a + b;
    if i + sep.len() > b.len() {
        assert(s.subrange(a.len() + start, s.len() as int) =~= b.subrange(start, b.len() as int));
    } else {
        assert(s.subrange(a.len() + i, a.len() + i + sep.len()) =~= b.subrange(i, i + sep.len()));
        if has_at(b, i, sep) {
            assert(s.subrange(a.len() + start, a.len() + i) =~= b.subrange(start, i));
            lemma_split_shift(a, b, sep, i + sep.len(), i + sep.len());
        } else {
            lemma_split_shift(a, b, sep, start, i + 1);
        }
    }
}

proof fn lemma_split_joined(ds: Seq<Seq<char>>)
    requires
        ds.len() > 0,
        forall|q: int| 0 <= q < ds.len() ==> plain_decl(#[trigger] ds[q]),
    ensures
        split(joined(ds), comma_space()) == ds,
    decreases ds.len(),
{
    let sep = comma_space();
    let s = joined(ds);
    let d = ds[0];
    assert(plain_decl(d));
    if ds.len() == 1 {
        assert forall|k: int| 0 <= k implies !#[trigger] has_at(s, k, sep) by {
            assert(!has_at(d, k, sep));
        }
        lemma_split_none(s, sep, 0, 0);
        assert(s.subrange(0, s.len() as int) =~= d);
        assert(seq![d] =~= ds);
    } else {
        let rest = ds.drop_first();
        assert forall|q: int| 0 <= q < rest.len() implies plain_decl(#[trigger] rest[q]) by {
            assert(rest[q] == ds[q + 1]);
        }
        lemma_split_joined(rest);
        let p = d.len() as int;
        let head = d + sep;
        assert(s == head + joined(rest));
        assert(s.subrange(p, p + 2) =~= sep);
        assert forall|k: int| 0 <= k < p implies !#[trigger] has_at(s, k, sep) by {
            if k + 2 <= p {
                assert(s.subrange(k, k + 2) =~= d.subrange(k, k + 2));
                assert(!has_at(d, k, sep));
            } else {
                assert(s[k + 1] == ',');
            }
        }
        lemma_split_found(s, sep, 0, 0, p);
        assert(s.subrange(0, p) =~= d);
        lemma_split_shift(head, joined(rest), sep, 0, 0);
        assert(seq![d] + rest =~= ds);
    }
}

proof fn lemma_split_spaced(d: Seq<char>)
    requires
        exists|k: int| 0 <= k < d.len() && d[k] == ' ',
    ensures
        split(d, one_space()).len() >= 2,
{
    let k = choose|k: int| 0 <= k < d.len() && d[k] == ' ';
    let p = first_index(d, ' ', 0)->0;
    lemma_first_space(d, 0, k);
    lemma_split_found(d, one_space(), 0, 0, p);
    lemma_split_nonempty(d, one_space(), p + 1, p + 1);
}

proof fn lemma_first_space(d: Seq<char>, i: int, k: int)
    requires
        0 <= i <= k < d.len(),
        d[k] == ' ',
    ensures
        first_index(d, ' ', i) matches Some(p) && i <= p <= k && d[p] == ' ' && has_at(d, p, one_space())
            && forall|j: int| i <= j < p ==> !#[trigger] has_at(d, j, one_space()),
    decreases k - i,
{
    if d[i] == ' ' {
        assert(d.subrange(i, i + 1) =~= one_space());
    } else {
        lemma_first_space(d, i + 1, k);
        assert(!has_at(d, i, one_space())) by {
            if has_at(d, i, one_space()) {
                assert(d.subrange(i, i + 1)[0] == d[i]);
            }
        }
    }
}

proof fn lemma_split_nonempty(s: Seq<char>, sep: Seq<char>, start: int, i: int)
    ensures
        split_from(s, sep, start, i).len() >= 1,
    decreases s.len() + 1 - i,
{
    if sep.len() == 0 || i < 0 || i + sep.len() > s.len() {
    } else if has_at(s, i, sep) {
        lemma_split_nonempty(s, sep, i + sep.len(), i + sep.len());
    } else {
        lemma_split_nonempty(s, sep, start, i + 1);
    }
}

proof fn lemma_arguments_plain(ds: Seq<Seq<char>>, k: int)
    requires
        0 <= k <= ds.len(),
        forall|q: int| 0 <= q < ds.len() ==> plain_decl(#[trigger] ds[q]),
    ensures
        arguments_of(ds, k).len() == k,
        forall|q: int| 0 <= q < k ==> (#[trigger] arguments_of(ds, k)[q]).2 == ds[q],
    decreases k,
{
    if k > 0 {
        lemma_arguments_plain(ds, k - 1);
        assert(plain_decl(ds[k - 1]));
        lemma_split_spaced(ds[k - 1]);
        assert(argument_of(ds[k - 1]) is Some);
        assert forall|q: int| 0 <= q < k implies (#[trigger] arguments_of(ds, k)[q]).2 == ds[q] by {
            if q < k - 1 {
                assert(arguments_of(ds, k)[q] == arguments_of(ds, k - 1)[q]);
            }
        }
    }
}

proof fn lemma_first_paren(s: Seq<char>, i: int, p: int)
    requires
        0 <= i <= p < s.len(),
        s[p] == '(',
        forall|j: int| i <= j < p ==> s[j] != '(',
    ensures
        first_index(s, '(', i) == Some(p),
    decreases p - i,
{
    if i < p {
        lemma_first_paren(s, i + 1, p);
    }
}

/// Reading back a signature written from a return type without `(` and
/// declarations of two words or more without `, ` gives that return type
/// and those declarations, in order
pub proof fn law_signature_round_trip(ret: Seq<char>, ds: Seq<Seq<char>>)
    requires
        forall|k: int| 0 <= k < ret.len() ==> ret[k] != '(',
        forall|q: int| 0 <= q < ds.len() ==> plain_decl(#[trigger] ds[q]),
    ensures
        signature_of(signature_text(ret, ds)) matches Some((r, args)) && r == ret && args.len() == ds.len()
            && forall|q: int| 0 <= q < ds.len() ==> (#[trigger] args[q]).2 == ds[q],
{
    let s = signature_text(ret, ds);
    let j = joined(ds);
    assert(s.subrange(0, 9) =~= function_prefix());
    let sig = s.subrange(9, s.len() as int);
    assert(sig =~= ret + seq!['('] + j + seq![')']);
    lemma_first_paren(sig, 0, ret.len() as int);
    assert(last_index(sig, ')', sig.len() as int) == Some(sig.len() - 1));
    let ps = ret.len() as int;
    let pe = sig.len() - 1;
    assert(sig.subrange(0, ps) =~= ret);
    assert(sig.subrange(ps + 1, pe) =~= j);
    let sep = comma_space();
    if ds.len() == 0 {
        lemma_split_none(j, sep, 0, 0);
        assert(j.subrange(0, 0) =~= Seq::<char>::empty());
        let pieces = split(j, sep);
        assert(pieces =~= seq![Seq::<char>::empty()]);
        lemma_split_none(Seq::<char>::empty(), one_space(), 0, 0);
        assert(split(Seq::<char>::empty(), one_space()).len() == 1);
        assert(argument_of(Seq::<char>::empty()) is None);
        assert(pieces[0] == Seq::<char>::empty());
        assert(arguments_of(pieces, 1) == arguments_of(pieces, 0));
        assert(arguments_of(pieces, pieces.len() as int).len() == 0);
    } else {
        lemma_split_joined(ds);
        lemma_arguments_plain(ds, ds.len() as int);
    }
}

} // verus!
