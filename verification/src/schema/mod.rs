//! The documentation schema: symbols, strands and bundles.

use vstd::prelude::*;
use self::symbol_map::SymbolMap;

pub mod symbol_map;
pub mod metadata;
pub mod signature;

pub use self::metadata::{Metadata, Versioning};

verus! {

/// Meta descriptor of a manifest or bundle
#[derive(Clone, Debug)]
pub struct Meta {
    /// Name of this manifest/bundle
    pub name: String,
    /// Manifest/bundle description
    pub description: Option<String>,
    /// Manifest/bundle author
    pub author: Option<String>,
}

/// How a manifest's content is reached
#[derive(Clone, Copy, Debug, PartialEq, Eq, Structural)]
pub enum SourceType {
    /// Git SSH URL schema; the repository field must be populated
    Git,
    /// Direct HTTP accessor; endpoints list the files
    Direct,
}

#[derive(Clone, Debug)]
pub struct Source {
    /// Type of source or method of access
    pub source_type: SourceType,
    /// Mandatory if Git is selected as the type
    pub repository: Option<String>,
    /// Mandatory if Direct is selected as the type
    pub endpoints: Option<Vec<String>>,
}

/// A manifest describing where a bundle's includes come from
#[derive(Clone, Debug)]
pub struct Manifest {
    /// Meta descriptor of manifest content
    pub meta: Meta,
    pub source: Source,
    /// Used as glob patterns when Git is selected
    pub patterns: Option<Vec<String>>,
}

/// An entry of the bundle index
#[derive(Clone, Debug)]
pub struct Index {
    /// Meta descriptor of manifest content
    pub meta: Meta,
    /// Meta content source
    pub source: Source,
}

/// An argument of a function
#[derive(Clone, Debug, PartialEq)]
pub struct Argument {
    /// Type of the argument
    pub ty: String,
    /// Name of the argument
    pub name: String,
    /// Raw declaration of the argument
    pub decl: String,
    /// Default value if any
    pub default: Option<String>,
}

/// A tag of a documentation comment
#[derive(Clone, Debug)]
pub struct DocTag {
    /// Tag name, `param:<name>` for parameters and empty for untagged text
    pub tag: String,
    /// Tag content
    pub text: String,
}

/// A parsed documentation comment: brief and tags in source order
#[derive(Clone, Debug)]
pub struct DocComment {
    pub brief: String,
    pub tags: Vec<DocTag>,
}

/// The tags of a comment as (name, text) pairs
pub open spec fn tags_view(tags: Seq<DocTag>) -> Seq<(Seq<char>, Seq<char>)> {
    tags.map_values(|t: DocTag| (t.tag@, t.text@))
}

/// Index of the first tag named `name` among those from `k`
pub open spec fn tag_index(tags: Seq<DocTag>, name: Seq<char>, k: int) -> Option<int>
    decreases tags.len() - k,
{
    if k < 0 || k >= tags.len() {
        None
    } else if tags[k].tag@ == name {
        Some(k)
    } else {
        tag_index(tags, name, k + 1)
    }
}

impl DocComment {
    /// Text of the first tag named `name`, e.g. `note` or `param:client`
    pub fn tag(&self, name: &str) -> (r: Option<String>)
        ensures
            match tag_index(self.tags@, name@, 0) {
                Some(i) => r matches Some(t) && t@ == self.tags@[i].text@,
                None => r is None,
            },
    {
        let n = crate::text::chars_of(name);
        let mut k: usize = 0;
        while k < self.tags.len()
            invariant
                k <= self.tags.len(),
                n@ == name@,
                tag_index(self.tags@, name@, 0) == tag_index(self.tags@, name@, k as int),
            decreases self.tags.len() - k,
        {
            let t = crate::text::chars_of(self.tags[k].tag.as_str());
            if crate::text::chars_eq(t.as_slice(), n.as_slice()) {
                return Some(self.tags[k].text.clone());
            }
            k = k + 1;
        }
        None
    }
}

/// A byte offset into a source file
#[derive(Clone, Copy, Debug, Default, PartialEq, Eq, Structural)]
pub struct DocLocation(pub i64);

impl DocLocation {
    /// The location of byte `offset` (wrapping as an `as` cast does)
    pub fn from_offset(offset: usize) -> (r: DocLocation)
        ensures
            r.0 == offset as i64,
    {
        DocLocation(offset as i64)
    }

    /// The byte offset (wrapping as an `as` cast does)
    pub fn offset(&self) -> (r: usize)
        ensures
            r == self.0 as usize,
    {
        self.0 as usize
    }
}

/// A byte offset that fits in an `i64` is kept through a documentation
/// location: the location of `offset` gives `offset` back
pub proof fn law_location_round_trip(offset: usize)
    requires
        offset <= i64::MAX,
    ensures
        ((offset as i64) as usize) == offset,
{
}

/// Documentation attached to a symbol
#[derive(Clone, Debug)]
pub struct Documentation {
    pub ref_line: u64,
    /// Documentation starting byte
    pub doc_start: DocLocation,
    /// Documentation ending byte
    pub doc_end: DocLocation,
    /// Parsed documentation
    pub docs: Option<DocComment>,
    pub metadata: Option<Metadata>,
}

/// Base symbol declaration
#[derive(Clone, Debug)]
pub struct Declaration {
    pub name: String,
    pub documentation: Documentation,
}

#[derive(Clone, Debug)]
pub struct Function {
    pub declaration: Declaration,
    /// Ex kinds: (forward, stock, etc)
    pub kind: String,
    /// Return type of the function
    pub return_type: String,
    /// Arguments of the function
    pub arguments: Vec<Argument>,
}

#[derive(Clone, Debug)]
pub struct Property {
    pub declaration: Declaration,
    /// Type of the property
    pub ty: String,
    /// Whether a getter exists
    pub getter: bool,
    /// Whether a setter exists
    pub setter: bool,
}

#[derive(Clone, Debug)]
pub struct MethodMap {
    pub declaration: Declaration,
    /// Parent inheritance if any
    pub parent: Option<String>,
    /// Functions within this methodmap
    pub methods: SymbolMap<Function>,
    /// Properties within this methodmap
    pub properties: SymbolMap<Property>,
}

#[derive(Clone, Debug)]
pub struct DPMethodMap {
    pub declaration: Declaration,
    pub parent: Option<String>,
    pub methods: Vec<Function>,
    pub properties: Vec<Property>,
}

#[derive(Clone, Debug)]
pub struct Field {
    pub declaration: Declaration,
    /// Type of the field
    pub ty: String,
}

#[derive(Clone, Debug)]
pub struct EnumStruct {
    pub declaration: Declaration,
    /// Functions within this enum struct
    pub methods: SymbolMap<Function>,
    /// Fields within this enum struct
    pub fields: SymbolMap<Field>,
}

#[derive(Clone, Debug)]
pub struct DPEnumStruct {
    pub declaration: Declaration,
    pub methods: Vec<Function>,
    pub fields: Vec<Field>,
}

#[derive(Clone, Debug)]
pub struct Entry {
    pub declaration: Declaration,
    /// Value that is explicitly set in code expressions
    pub value: Option<String>,
}

#[derive(Clone, Debug)]
pub struct Enumeration {
    pub declaration: Declaration,
    pub entries: SymbolMap<Entry>,
}

#[derive(Clone, Debug)]
pub struct DPEnumeration {
    pub declaration: Declaration,
    pub entries: Vec<Entry>,
}

#[derive(Clone, Debug)]
pub struct Constant {
    pub declaration: Declaration,
}

#[derive(Clone, Debug)]
pub struct Define {
    pub declaration: Declaration,
    pub value: String,
}

/// A parsed `function <return>(<args>)` signature
#[derive(Clone, Debug, PartialEq)]
pub struct TypeSignature {
    /// Return type of the function
    pub return_type: String,
    /// Arguments of the function
    pub arguments: Vec<Argument>,
}

#[derive(Clone, Debug)]
pub struct Type {
    pub documentation: Documentation,
    /// Signature of the function
    pub ty: String,
    /// Parsed function signature
    pub parsed_signature: Option<TypeSignature>,
}

#[derive(Clone, Debug)]
pub struct TypeSet {
    pub declaration: Declaration,
    /// Type signatures
    pub types: SymbolMap<Type>,
}

#[derive(Clone, Debug)]
pub struct DPTypeSet {
    pub declaration: Declaration,
    pub types: Vec<Type>,
}

#[derive(Clone, Debug)]
pub struct TypeDefinition {
    pub declaration: Declaration,
    /// Function signature
    pub ty: String,
    /// Parsed function signature
    pub parsed_signature: Option<TypeSignature>,
}

/// The documented symbols of one include file
#[derive(Clone, Debug)]
pub struct Strand {
    pub functions: SymbolMap<Function>,
    pub methodmaps: SymbolMap<MethodMap>,
    pub enumstructs: SymbolMap<EnumStruct>,
    pub constants: SymbolMap<Constant>,
    pub defines: SymbolMap<Define>,
    pub enums: SymbolMap<Enumeration>,
    pub typesets: SymbolMap<TypeSet>,
    pub typedefs: SymbolMap<TypeDefinition>,
}

impl Strand {
    /// A strand without symbols
    pub fn new() -> (s: Strand)
        ensures
            s.functions.keys().len() == 0,
            s.methodmaps.keys().len() == 0,
            s.enumstructs.keys().len() == 0,
            s.constants.keys().len() == 0,
            s.defines.keys().len() == 0,
            s.enums.keys().len() == 0,
            s.typesets.keys().len() == 0,
            s.typedefs.keys().len() == 0,
            crate::chronicle::strand_keyed(s),
            forall|k: Seq<char>| #[trigger] s.defines.get_spec(k) is None,
            forall|k: Seq<char>| #[trigger] s.constants.get_spec(k) is None,
    {
        let s = Strand {
            functions: SymbolMap::new(),
            methodmaps: SymbolMap::new(),
            enumstructs: SymbolMap::new(),
            constants: SymbolMap::new(),
            defines: SymbolMap::new(),
            enums: SymbolMap::new(),
            typesets: SymbolMap::new(),
            typedefs: SymbolMap::new(),
        };
        proof {
            crate::chronicle::lemma_keyed_empty(s.functions);
            crate::chronicle::lemma_keyed_empty(s.methodmaps);
            crate::chronicle::lemma_keyed_empty(s.enumstructs);
            crate::chronicle::lemma_keyed_empty(s.constants);
            crate::chronicle::lemma_keyed_empty(s.defines);
            crate::chronicle::lemma_keyed_empty(s.enums);
            crate::chronicle::lemma_keyed_empty(s.typesets);
            crate::chronicle::lemma_keyed_empty(s.typedefs);
        }
        s
    }
}

/// A bundle: the strands of all include files of a manifest
pub struct Bundle {
    /// Meta descriptor of bundle content
    pub meta: Meta,
    /// Manifest source
    pub source: Source,
    /// Strand of each individual include file
    pub strands: SymbolMap<Strand>,
    /// Version this bundle was last parsed from
    pub version: Option<Versioning>,
}

/// The kinds of documented symbols
#[derive(Clone, Copy, Debug, PartialEq, Eq, Structural)]
pub enum SymbolType {
    Function,
    MethodMap,
    Property,
    Constant,
    Define,
    Enum,
    EnumStruct,
    Field,
    TypeSet,
    TypeDefinition,
}

/// The name a symbol kind is displayed with
pub open spec fn symbol_ty(t: SymbolType) -> Seq<char> {
    match t {
        SymbolType::Function => seq!['f', 'u', 'n', 'c', 't', 'i', 'o', 'n'],
        SymbolType::MethodMap => seq!['m', 'e', 't', 'h', 'o', 'd', 'm', 'a', 'p'],
        SymbolType::Property => seq!['p', 'r', 'o', 'p', 'e', 'r', 't', 'y'],
        SymbolType::Constant => seq!['c', 'o', 'n', 's', 't', 'a', 'n', 't'],
        SymbolType::Define => seq!['d', 'e', 'f', 'i', 'n', 'e'],
        SymbolType::Enum => seq!['e', 'n', 'u', 'm', 'e', 'r', 'a', 't', 'i', 'o', 'n'],
        SymbolType::EnumStruct => seq!['e', 'n', 'u', 'm', 's', 't', 'r', 'u', 'c', 't'],
        SymbolType::Field => seq!['f', 'i', 'e', 'l', 'd'],
        SymbolType::TypeSet => seq!['t', 'y', 'p', 'e', 's', 'e', 't'],
        SymbolType::TypeDefinition => seq!['t', 'y', 'p', 'e', 'd', 'e', 'f'],
    }
}

impl SymbolType {
    /// The name the kind is displayed with, as `Display` prints it
    pub fn to_string(&self) -> (r: String)
        ensures
            r@ == symbol_ty(*self),
    {
        let cs: &[char] = match self {
            SymbolType::Function => &['f', 'u', 'n', 'c', 't', 'i', 'o', 'n'],
            SymbolType::MethodMap => &['m', 'e', 't', 'h', 'o', 'd', 'm', 'a', 'p'],
            SymbolType::Property => &['p', 'r', 'o', 'p', 'e', 'r', 't', 'y'],
            SymbolType::Constant => &['c', 'o', 'n', 's', 't', 'a', 'n', 't'],
            SymbolType::Define => &['d', 'e', 'f', 'i', 'n', 'e'],
            SymbolType::Enum => &['e', 'n', 'u', 'm', 'e', 'r', 'a', 't', 'i', 'o', 'n'],
            SymbolType::EnumStruct => &['e', 'n', 'u', 'm', 's', 't', 'r', 'u', 'c', 't'],
            SymbolType::Field => &['f', 'i', 'e', 'l', 'd'],
            SymbolType::TypeSet => &['t', 'y', 'p', 'e', 's', 'e', 't'],
            SymbolType::TypeDefinition => &['t', 'y', 'p', 'e', 'd', 'e', 'f'],
        };
        crate::text::string_from_chars(cs)
    }
}

/// Access to the metadata of a symbol
pub trait Metable: Sized {
    spec fn spec_metadata(&self) -> Option<Metadata>;

    /// The symbol with its metadata replaced
    spec fn with_meta(&self, m: Option<Metadata>) -> Self;

    proof fn lemma_with_meta(&self, a: Option<Metadata>, b: Option<Metadata>)
        ensures
            self.with_meta(a).with_meta(b) == self.with_meta(b),
            self.with_meta(a).spec_metadata() == a,
            self.with_meta(self.spec_metadata()) == *self;

    /// The metadata, to read or replace in place
    fn metadata(&mut self) -> (r: &mut Option<Metadata>)
        ensures
            *r == old(self).spec_metadata(),
            *final(self) == old(self).with_meta(*final(r));
}

} // verus!
