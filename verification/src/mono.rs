//! The older, list based symbol schema and its signature parser.

use vstd::prelude::*;
use vstd::utf8::{encode_utf8, decode_utf8, is_char_boundary, encode_utf8_decode_utf8, encode_utf8_valid_utf8};
use crate::text::{chars_of, string_from_chars, chars_at};
use crate::schema::symbol_map::SymbolMap;
use crate::schema::signature::{split, split_chars, pieces_view, first_index};
use crate::schema::{Declaration, Documentation};

verus! {

/// An argument of a function
#[derive(Clone, Debug)]
pub struct Argument {
    pub ty: String,
    pub name: String,
    pub decl: String,
}

/// A parsed `function <return>(<args>)` signature
#[derive(Clone, Debug)]
pub struct TypeSignature {
    /// Return type of the function
    pub return_type: String,
    /// Arguments of the function
    pub arguments: Vec<Argument>,
}

#[derive(Clone, Debug)]
pub struct Function {
    pub declaration: Declaration,
    /// Ex kinds: (forward, stock, etc)
    pub kind: String,
    /// Return type of the function
    pub return_type: String,
    /// Arguments of the function
    pub arguments: Vec<Argument>,
}

#[derive(Clone, Debug)]
pub struct Property {
    pub declaration: Declaration,
    /// Type of the property
    pub ty: String,
    /// Whether a getter exists
    pub getter: bool,
    /// Whether a setter exists
    pub setter: bool,
}

#[derive(Clone, Debug)]
pub struct MethodMap {
    pub declaration: Declaration,
    /// Parent inheritance if any
    pub parent: Option<String>,
    /// Functions within this methodmap
    pub methods: Vec<Function>,
    /// Properties within this methodmap
    pub properties: Vec<Property>,
}

#[derive(Clone, Debug)]
pub struct Field {
    pub declaration: Declaration,
    /// Type of the field
    pub ty: String,
}

#[derive(Clone, Debug)]
pub struct EnumStruct {
    pub declaration: Declaration,
    pub methods: Vec<Function>,
    pub fields: Vec<Field>,
}

#[derive(Clone, Debug)]
pub struct Constant {
    pub declaration: Declaration,
}

#[derive(Clone, Debug)]
pub struct Define {
    pub declaration: Declaration,
    pub value: String,
}

#[derive(Clone, Debug)]
pub struct Entry {
    pub declaration: Declaration,
    /// Value that is explicitly set in code expressions
    pub value: Option<String>,
}

#[derive(Clone, Debug)]
pub struct Enumeration {
    pub declaration: Declaration,
    pub entries: Vec<Entry>,
}

#[derive(Clone, Debug)]
pub struct Type {
    pub documentation: Documentation,
    /// Signature of the function
    pub ty: String,
    /// Parsed function signature
    pub parsed_signature: Option<TypeSignature>,
}

#[derive(Clone, Debug)]
pub struct TypeSet {
    pub declaration: Declaration,
    pub types: Vec<Type>,
}

#[derive(Clone, Debug)]
pub struct TypeDefinition {
    pub declaration: Declaration,
    /// Function signature
    pub ty: String,
    /// Parsed function signature
    pub parsed_signature: Option<TypeSignature>,
}

/// Structural representation of an include's file contents
#[derive(Clone, Debug)]
pub struct IncludeFile {
    pub functions: Vec<Function>,
    pub methodmaps: Vec<MethodMap>,
    pub enumstructs: Vec<EnumStruct>,
    pub constants: Vec<Constant>,
    pub defines: Vec<Define>,
    pub enums: Vec<Enumeration>,
    pub typesets: Vec<TypeSet>,
    pub typedefs: Vec<TypeDefinition>,
}

/// Manifest of remote or local includes
#[derive(Clone, Debug)]
pub struct IncludeManifest {
    /// Include key and fetch endpoint of each include
    pub includes: SymbolMap<String>,
    /// Timestamp in which it was created, useful for cache busting
    pub timestamp: u64,
}

/// The kinds of documented symbols
#[derive(Clone, Copy, Debug, PartialEq, Eq, Structural)]
pub enum SymbolType {
    Function,
    MethodMap,
    Property,
    Constant,
    Enum,
    EnumStruct,
    Field,
    TypeSet,
    TypeDefinition,
}

/// The name a symbol kind is displayed with
pub open spec fn symbol_type_name(t: SymbolType) -> Seq<char> {
    match t {
        SymbolType::Function => seq!['f', 'u', 'n', 'c', 't', 'i', 'o', 'n'],
        SymbolType::MethodMap => seq!['m', 'e', 't', 'h', 'o', 'd', 'm', 'a', 'p'],
        SymbolType::Property => seq!['p', 'r', 'o', 'p', 'e', 'r', 't', 'y'],
        SymbolType::Constant => seq!['c', 'o', 'n', 's', 't', 'a', 'n', 't'],
        SymbolType::Enum => seq!['e', 'n', 'u', 'm', 'e', 'r', 'a', 't', 'i', 'o', 'n'],
        SymbolType::EnumStruct => seq!['e', 'n', 'u', 'm', 's', 't', 'r', 'u', 'c', 't'],
        SymbolType::Field => seq!['f', 'i', 'e', 'l', 'd'],
        SymbolType::TypeSet => seq!['t', 'y', 'p', 'e', 's', 'e', 't'],
        SymbolType::TypeDefinition => seq!['t', 'y', 'p', 'e', 'd', 'e', 'f'],
    }
}

impl SymbolType {
    /// The name the kind is displayed with, as `Display` prints it
    pub fn to_string(&self) -> (r: String)
        ensures
            r@ == symbol_type_name(*self),
    {
        let cs: &[char] = match self {
            SymbolType::Function => &['f', 'u', 'n', 'c', 't', 'i', 'o', 'n'],
            SymbolType::MethodMap => &['m', 'e', 't', 'h', 'o', 'd', 'm', 'a', 'p'],
            SymbolType::Property => &['p', 'r', 'o', 'p', 'e', 'r', 't', 'y'],
            SymbolType::Constant => &['c', 'o', 'n', 's', 't', 'a', 'n', 't'],
            SymbolType::Enum => &['e', 'n', 'u', 'm', 'e', 'r', 'a', 't', 'i', 'o', 'n'],
            SymbolType::EnumStruct => &['e', 'n', 'u', 'm', 's', 't', 'r', 'u', 'c', 't'],
            SymbolType::Field => &['f', 'i', 'e', 'l', 'd'],
            SymbolType::TypeSet => &['t', 'y', 'p', 'e', 's', 'e', 't'],
            SymbolType::TypeDefinition => &['t', 'y', 'p', 'e', 'd', 'e', 'f'],
        };
        string_from_chars(cs)
    }
}

/// The words of a piece: its text split on single spaces
pub open spec fn words(piece: Seq<char>) -> Seq<Seq<char>> {
    split(piece, seq![' '])
}

/// The pieces of an argument list: its text split on `, `
pub open spec fn comma_pieces(section: Seq<char>) -> Seq<Seq<char>> {
    split(section, seq![',', ' '])
}

/// The signature text after its first nine bytes
pub open spec fn signature_body(s: Seq<char>) -> Seq<char> {
    decode_utf8(encode_utf8(s).subrange(9, encode_utf8(s).len() as int))
}

/// The argument list between the first `(` and the last character
pub open spec fn argument_section(sig: Seq<char>, ps: int) -> Seq<char> {
    sig.subrange(ps + 1, sig.len() - 1)
}

/// The inputs the parser takes: the first nine bytes end on a character
/// boundary, a `(` follows, the text ends with an ASCII character after it,
/// and, when the arguments have a comma, every `, ` separated argument has
/// a space
pub open spec fn accepted_signature(s: Seq<char>) -> bool {
    &&& encode_utf8(s).len() >= 9
    &&& is_char_boundary(encode_utf8(s), 9)
    &&& match first_index(signature_body(s), '(', 0) {
        Some(ps) => {
            let sig = signature_body(s);
            let section = argument_section(sig, ps);
            &&& sig.len() - ps >= 2
            &&& (sig.last() as u32) < 0x80
            &&& first_index(section, ',', 0) is Some ==> forall|i: int| 0 <= i < comma_pieces(section).len()
                ==> #[trigger] words(comma_pieces(section)[i]).len() >= 2
        },
        None => false,
    }
}

/// The argument a piece of two or more words describes, as (type, name,
/// declaration): two words are type and name, more are a qualified type
/// and a name
pub open spec fn mono_argument(piece: Seq<char>) -> (Seq<char>, Seq<char>, Seq<char>) {
    let parts = words(piece);
    if parts.len() == 2 {
        (parts[0], parts[1], piece)
    } else {
        (parts[0] + seq![' '] + parts[1], parts[2], piece)
    }
}

/// The return type and arguments the parser gives for an accepted input
pub open spec fn mono_signature(s: Seq<char>) -> (Seq<char>, Seq<(Seq<char>, Seq<char>, Seq<char>)>) {
    let sig = signature_body(s);
    let ps = first_index(sig, '(', 0)->0;
    let section = argument_section(sig, ps);
    let pieces = comma_pieces(section);
    (
        sig.subrange(0, ps),
        if first_index(section, ',', 0) is None {
            Seq::empty()
        } else {
            pieces.map_values(|p: Seq<char>| mono_argument(p))
        },
    )
}

pub open spec fn mono_arguments_view(args: Seq<Argument>) -> Seq<(Seq<char>, Seq<char>, Seq<char>)> {
    args.map_values(|a: Argument| (a.ty@, a.name@, a.decl@))
}

fn slice_chars(s: &Vec<char>, a: usize, b: usize) -> (r: Vec<char>)
    requires
        a <= b <= s.len(),
    ensures
        r@ == s@.subrange(a as int, b as int),
{
    let mut r: Vec<char> = Vec::new();
    let mut i = a;
    while i < b
        invariant
            a <= i <= b <= s.len(),
            r@ == s@.subrange(a as int, i as int),
        decreases b - i,
    {
        r.push(s[i]);
        i = i + 1;
        assert(r@ =~= s@.subrange(a as int, i as int));
    }
    r
}

/// Parses a `function <return>(<args>)` signature, skipping the first nine
/// bytes unchecked. The input must be one the parser takes.
pub fn parse_type_signature(s: &str) -> (r: TypeSignature)
    requires
        accepted_signature(s@),
    ensures
        (r.return_type@, mono_arguments_view(r.arguments@)) == mono_signature(s@),
{
    proof {
        encode_utf8_valid_utf8(s@);
    }
    let (_, rest) = s.split_at(9);
    proof {
        encode_utf8_decode_utf8(rest@);
        assert(rest@ == signature_body(s@));
    }
    let sig = chars_of(rest);
    let mut ps: usize = 0;
    while ps < sig.len() && sig[ps] != '('
        invariant
            ps <= sig.len(),
            first_index(sig@, '(', 0) == first_index(sig@, '(', ps as int),
        decreases sig.len() - ps,
    {
        ps = ps + 1;
    }
    let return_type = slice_chars(&sig, 0, ps);
    let section = slice_chars(&sig, ps + 1, sig.len() - 1);
    let mut has_comma = false;
    let mut k: usize = 0;
    while k < section.len() && !has_comma
        invariant
            k <= section.len(),
            has_comma ==> first_index(section@, ',', 0) is Some,
            !has_comma ==> first_index(section@, ',', 0) == first_index(section@, ',', k as int),
        decreases section.len() - k, if has_comma { 0int } else { 1int },
    {
        if section[k] == ',' {
            has_comma = true;
        } else {
            k = k + 1;
        }
    }
    let mut arguments: Vec<Argument> = Vec::new();
    if has_comma {
        let pieces = split_chars(&section, &[',', ' ']);
        assert(seq![',', ' '] =~= [',', ' ']@);
        let mut i: usize = 0;
        while i < pieces.len()
            invariant
                i <= pieces.len(),
                pieces_view(pieces@) == comma_pieces(section@),
                forall|j: int| 0 <= j < pieces_view(pieces@).len()
                    ==> #[trigger] words(pieces_view(pieces@)[j]).len() >= 2,
                mono_arguments_view(arguments@) == pieces_view(pieces@).subrange(0, i as int).map_values(
                    |p: Seq<char>| mono_argument(p)),
            decreases pieces.len() - i,
        {
            assert(pieces_view(pieces@)[i as int] == pieces@[i as int]@);
            let parts = split_chars(&pieces[i], &[' ']);
            assert(seq![' '] =~= [' ']@);
            assert(words(pieces_view(pieces@)[i as int]).len() >= 2);
            assert(pieces_view(parts@)[0] == parts@[0]@ && pieces_view(parts@)[1] == parts@[1]@);
            let a = if parts.len() == 2 {
                Argument {
                    ty: string_from_chars(parts[0].as_slice()),
                    name: string_from_chars(parts[1].as_slice()),
                    decl: string_from_chars(pieces[i].as_slice()),
                }
            } else {
                assert(pieces_view(parts@)[2] == parts@[2]@);
                let mut t = slice_chars(&parts[0], 0, parts[0].len());
                t.push(' ');
                let mut m: usize = 0;
                let ghost base = t@;
                while m < parts[1].len()
                    invariant
                        parts@.len() >= 3,
                        m <= parts[1].len(),
                        t@ == base + parts@[1]@.subrange(0, m as int),
                    decreases parts[1].len() - m,
                {
                    t.push(parts[1][m]);
                    m = m + 1;
                    assert(t@ =~= base + parts@[1]@.subrange(0, m as int));
                }
                assert(parts@[0]@.subrange(0, parts@[0]@.len() as int) =~= parts@[0]@);
                assert(parts@[1]@.subrange(0, parts@[1]@.len() as int) =~= parts@[1]@);
                Argument {
                    ty: string_from_chars(t.as_slice()),
                    name: string_from_chars(parts[2].as_slice()),
                    decl: string_from_chars(pieces[i].as_slice()),
                }
            };
            assert(pieces_view(parts@) == words(pieces_view(pieces@)[i as int]));
            assert((a.ty@, a.name@, a.decl@) == mono_argument(pieces_view(pieces@)[i as int]));
            let ghost before = arguments@;
            let ghost pv = pieces_view(pieces@);
            arguments.push(a);
            assert(mono_arguments_view(arguments@) =~= mono_arguments_view(before).push((a.ty@, a.name@, a.decl@)));
            assert(pv.subrange(0, i + 1).map_values(|p: Seq<char>| mono_argument(p)) =~= pv.subrange(0, i as int).map_values(
                |p: Seq<char>| mono_argument(p)).push(mono_argument(pv[i as int])));
            i = i + 1;
        }
        assert(pieces_view(pieces@).subrange(0, pieces@.len() as int) =~= pieces_view(pieces@));
    } else {
        assert(mono_arguments_view(arguments@) =~= Seq::empty());
    }
    TypeSignature { return_type: string_from_chars(return_type.as_slice()), arguments: arguments }
}

} // verus!
