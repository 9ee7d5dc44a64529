//! Folding newer versions of a strand into a bundle: symbols that are new are
//! added, symbols that changed take the newer content, and the metadata of each
//! symbol records the versions it was created and last changed at.

use vstd::prelude::*;
use crate::schema::symbol_map::{SymbolMap, lemma_contains_keys};
use crate::schema::{
    Argument, Constant, Declaration, Define, DocComment, Documentation, Entry, EnumStruct,
    Enumeration, Field, Function, MethodMap, Metable, Metadata, Property, Type, TypeDefinition,
    TypeSet, TypeSignature, Versioning, tags_view, Strand, Bundle, Manifest,
};
use crate::source::{AlternatorError, checked_outcome};

verus! {

/// What `update_metadata` makes of a symbol's metadata: with no version
/// nothing changes; a changed symbol that has metadata is stamped as last
/// updated at the version; an unchanged symbol without metadata is stamped as
/// created and last updated at the version.
pub open spec fn touched(m: Option<Metadata>, diff: bool, version: Option<Versioning>) -> Option<Metadata> {
    match version {
        None => m,
        Some(t) => match m {
            Some(a) => if diff {
                Some(Metadata { created: a.created, last_updated: Some(t) })
            } else {
                m
            },
            None => if diff {
                None
            } else {
                Some(Metadata { created: Some(t), last_updated: Some(t) })
            },
        },
    }
}

/// Stamps the metadata of a symbol with `version`, `diff` telling whether the
/// symbol changed
pub fn update_metadata(m: &mut Option<Metadata>, diff: bool, version: &Option<Versioning>)
    ensures
        *final(m) == touched(*old(m), diff, *version),
{
    let t = match version {
        Some(a) => a,
        None => return,
    };
    match m {
        Some(a) => {
            if diff {
                a.last_updated = Some(t.clone());
            }
        },
        None => {
            if !diff {
                *m = Some(Metadata { created: Some(t.clone()), last_updated: Some(t.clone()) });
            }
        },
    }
}

/// An optional text by its characters
pub open spec fn opt_text(s: Option<String>) -> Option<Seq<char>> {
    match s {
        Some(t) => Some(t@),
        None => None,
    }
}

fn same_opt_text(a: &Option<String>, b: &Option<String>) -> (r: bool)
    ensures
        r == (opt_text(*a) == opt_text(*b)),
{
    match (a, b) {
        (Some(x), Some(y)) => *x == *y,
        (None, None) => true,
        _ => false,
    }
}

/// Whether two parsed comments are equal: same brief, same tags in order
pub open spec fn same_docs(a: Option<DocComment>, b: Option<DocComment>) -> bool {
    match (a, b) {
        (Some(x), Some(y)) => x.brief@ == y.brief@ && tags_view(x.tags@) == tags_view(y.tags@),
        (None, None) => true,
        _ => false,
    }
}

fn same_docs_exec(a: &Option<DocComment>, b: &Option<DocComment>) -> (r: bool)
    ensures
        r == same_docs(*a, *b),
{
    match (a, b) {
        (Some(x), Some(y)) => {
            if !(x.brief == y.brief) || x.tags.len() != y.tags.len() {
                proof {
                    if x.tags.len() != y.tags.len() {
                        assert(tags_view(x.tags@).len() != tags_view(y.tags@).len());
                    }
                }
                return false;
            }
            let mut i: usize = 0;
            while i < x.tags.len()
                invariant
                    i <= x.tags.len(),
                    x.tags.len() == y.tags.len(),
                    *a == Some(*x),
                    *b == Some(*y),
                    forall|j: int| 0 <= j < i ==> tags_view(x.tags@)[j] == tags_view(y.tags@)[j],
                decreases x.tags.len() - i,
            {
                if !(x.tags[i].tag == y.tags[i].tag) || !(x.tags[i].text == y.tags[i].text) {
                    assert(tags_view(x.tags@)[i as int] != tags_view(y.tags@)[i as int]);
                    return false;
                }
                i = i + 1;
            }
            assert(tags_view(x.tags@) =~= tags_view(y.tags@));
            true
        },
        (None, None) => true,
        _ => false,
    }
}

/// Documentation compares by its parsed comment alone
pub open spec fn same_documentation(a: Documentation, b: Documentation) -> bool {
    same_docs(a.docs, b.docs)
}

/// Declarations compare by name and parsed comment
pub open spec fn same_declaration(a: Declaration, b: Declaration) -> bool {
    a.name@ == b.name@ && same_documentation(a.documentation, b.documentation)
}

fn same_declaration_exec(a: &Declaration, b: &Declaration) -> (r: bool)
    ensures
        r == same_declaration(*a, *b),
{
    a.name == b.name && same_docs_exec(&a.documentation.docs, &b.documentation.docs)
}

pub open spec fn same_argument(a: Argument, b: Argument) -> bool {
    &&& a.ty@ == b.ty@
    &&& a.name@ == b.name@
    &&& a.decl@ == b.decl@
    &&& opt_text(a.default) == opt_text(b.default)
}

/// Argument lists compare element by element
pub open spec fn same_arguments(a: Seq<Argument>, b: Seq<Argument>) -> bool {
    a.len() == b.len() && forall|i: int| 0 <= i < a.len() ==> same_argument(#[trigger] a[i], b[i])
}

fn same_arguments_exec(a: &Vec<Argument>, b: &Vec<Argument>) -> (r: bool)
    ensures
        r == same_arguments(a@, b@),
{
    if a.len() != b.len() {
        return false;
    }
    let mut i: usize = 0;
    while i < a.len()
        invariant
            i <= a.len(),
            a.len() == b.len(),
            forall|j: int| 0 <= j < i ==> same_argument(#[trigger] a@[j], b@[j]),
        decreases a.len() - i,
    {
        let x = &a[i];
        let y = &b[i];
        if !(x.ty == y.ty && x.name == y.name && x.decl == y.decl && same_opt_text(&x.default, &y.default)) {
            return false;
        }
        i = i + 1;
    }
    true
}

pub open spec fn same_signature(a: Option<TypeSignature>, b: Option<TypeSignature>) -> bool {
    match (a, b) {
        (Some(x), Some(y)) => x.return_type@ == y.return_type@ && same_arguments(x.arguments@, y.arguments@),
        (None, None) => true,
        _ => false,
    }
}

fn same_signature_exec(a: &Option<TypeSignature>, b: &Option<TypeSignature>) -> (r: bool)
    ensures
        r == same_signature(*a, *b),
{
    match (a, b) {
        (Some(x), Some(y)) => x.return_type == y.return_type && same_arguments_exec(&x.arguments, &y.arguments),
        (None, None) => true,
        _ => false,
    }
}

/// A declaration with its metadata replaced
pub open spec fn declaration_with(d: Declaration, m: Option<Metadata>) -> Declaration {
    Declaration { name: d.name, documentation: documentation_with(d.documentation, m) }
}

/// Documentation with its metadata replaced
pub open spec fn documentation_with(d: Documentation, m: Option<Metadata>) -> Documentation {
    Documentation { ref_line: d.ref_line, doc_start: d.doc_start, doc_end: d.doc_end, docs: d.docs, metadata: m }
}

/// The names among `names` that `cur` lacks, in order
pub open spec fn fresh_names<T>(cur: SymbolMap<T>, names: Seq<Seq<char>>) -> Seq<Seq<char>>
    decreases names.len(),
{
    if names.len() == 0 {
        Seq::empty()
    } else {
        let rest = fresh_names(cur, names.drop_last());
        if cur.contains_spec(names.last()) {
            rest
        } else {
            rest.push(names.last())
        }
    }
}

/// The symbol that `dp`'s symbol named `k` is folded into: the older one of
/// that name or, for a new name, the newer one itself
pub open spec fn base_of<T>(cur: SymbolMap<T>, dp: SymbolMap<T>, k: Seq<char>) -> T {
    match cur.get_spec(k) {
        Some(c) => c,
        None => dp.get_spec(k)->0,
    }
}

/// `r` is `cur` once each symbol of `dp` is folded into the symbol of the same
/// name: names that are new come after the present ones, in `dp`'s order;
/// symbols that `dp` lacks stay as they were
pub open spec fn merges<T: Chronicled>(
    cur: SymbolMap<T>,
    dp: SymbolMap<T>,
    version: Option<Versioning>,
    r: SymbolMap<T>,
) -> bool {
    &&& r.keys() == cur.keys() + fresh_names(cur, dp.keys())
    &&& forall|k: Seq<char>| !dp.contains_spec(k) ==> #[trigger] r.get_spec(k) == cur.get_spec(k)
    &&& forall|k: Seq<char>|
        dp.contains_spec(k) ==> (#[trigger] r.get_spec(k) matches Some(x) && base_of(cur, dp, k).absorbs(
            &dp.get_spec(k)->0,
            version,
            &x,
        ))
}

pub(crate) proof fn lemma_fresh_names_step<T>(cur: SymbolMap<T>, names: Seq<Seq<char>>, i: int)
    requires
        0 <= i < names.len(),
    ensures
        fresh_names(cur, names.take(i + 1)) == if cur.contains_spec(names[i]) {
            fresh_names(cur, names.take(i))
        } else {
            fresh_names(cur, names.take(i)).push(names[i])
        },
{
    assert(names.take(i + 1).drop_last() =~= names.take(i));
}

/// No more names are fresh than there are names
pub proof fn lemma_fresh_names_len<T>(cur: SymbolMap<T>, names: Seq<Seq<char>>)
    ensures
        fresh_names(cur, names).len() <= names.len(),
    decreases names.len(),
{
    if names.len() > 0 {
        lemma_fresh_names_len(cur, names.drop_last());
    }
}

/// No name is fresh when `cur` has all of them
pub proof fn lemma_fresh_names_none<T>(cur: SymbolMap<T>, names: Seq<Seq<char>>)
    requires
        forall|i: int| 0 <= i < names.len() ==> cur.contains_spec(#[trigger] names[i]),
    ensures
        fresh_names(cur, names) == Seq::<Seq<char>>::empty(),
    decreases names.len(),
{
    if names.len() > 0 {
        assert(cur.contains_spec(names[names.len() - 1]));
        lemma_fresh_names_none(cur, names.drop_last());
    }
}

/// Whether two maps of members compare equal, as `==` on a `HashMap` does:
/// as many names, and each symbol of the first equal to the symbol of the
/// same name in the second
pub open spec fn same_map<T: Chronicled>(a: SymbolMap<T>, b: SymbolMap<T>) -> bool {
    &&& a.keys().len() == b.keys().len()
    &&& forall|k: Seq<char>|
        a.contains_spec(k) ==> (#[trigger] b.get_spec(k) matches Some(y) && a.get_spec(k)->0.same(&y))
}

/// Whether two maps of members compare equal
pub fn same_map_exec<T: Chronicled>(a: &SymbolMap<T>, b: &SymbolMap<T>) -> (r: bool)
    ensures
        r == same_map(*a, *b),
{
    if a.len() != b.len() {
        return false;
    }
    let mut i: usize = 0;
    while i < a.len()
        invariant
            i <= a.keys().len(),
            a.keys().len() == b.keys().len(),
            forall|j: int| 0 <= j < i ==> ((#[trigger] b.get_spec(a.keys()[j])) matches Some(y) && a.values()[j].same(&y)),
            forall|j: int| 0 <= j < i ==> a.get_spec(#[trigger] a.keys()[j]) == Some(a.values()[j]),
        decreases a.keys().len() - i,
    {
        let (k, x) = a.entry_at(i);
        match b.get(k.as_str()) {
            Some(y) => {
                if !x.same_as(y) {
                    return false;
                }
            },
            None => {
                return false;
            },
        }
        i = i + 1;
    }
    proof {
        assert forall|k: Seq<char>| a.contains_spec(k) implies (#[trigger] b.get_spec(k) matches Some(y) && a.get_spec(k)->0.same(&y)) by {
            lemma_contains_keys(*a, k);
            let j = choose|j: int| 0 <= j < a.keys().len() && a.keys()[j] == k;
            assert(a.get_spec(a.keys()[j]) == Some(a.values()[j]));
        }
    }
    true
}

/// Every map of members compares equal to itself
pub proof fn lemma_same_map_reflexive<T: Chronicled>(a: SymbolMap<T>)
    ensures
        same_map(a, a),
{
    assert forall|k: Seq<char>| a.contains_spec(k) implies (#[trigger] a.get_spec(k) matches Some(y) && a.get_spec(k)->0.same(&y)) by {
        a.get_spec(k)->0.lemma_same_reflexive();
    }
}

/// A map of members that compares equal to a newer one has all of its names:
/// absorbing it adds none
pub proof fn lemma_same_map_no_fresh<T: Chronicled>(a: SymbolMap<T>, b: SymbolMap<T>)
    requires
        same_map(a, b),
        a.keys().no_duplicates(),
        b.keys().no_duplicates(),
    ensures
        fresh_names(a, b.keys()) == Seq::<Seq<char>>::empty(),
{
    broadcast use vstd::seq_lib::seq_to_set_is_finite;
    let sa = a.keys().to_set();
    let sb = b.keys().to_set();
    assert forall|k: Seq<char>| sa.contains(k) implies sb.contains(k) by {
        lemma_contains_keys(a, k);
        lemma_contains_keys(b, k);
    }
    a.keys().unique_seq_to_set();
    b.keys().unique_seq_to_set();
    vstd::set_lib::lemma_subset_equality(sa, sb);
    assert forall|i: int| 0 <= i < b.keys().len() implies a.contains_spec(#[trigger] b.keys()[i]) by {
        assert(sb.contains(b.keys()[i]));
        lemma_contains_keys(a, b.keys()[i]);
    }
    lemma_fresh_names_none(a, b.keys());
}

/// Each symbol of `m` is stored under its own name, and so are its members
pub open spec fn keyed<T: Chronicled>(m: SymbolMap<T>) -> bool {
    forall|k: Seq<char>|
        #[trigger] m.contains_spec(k) ==> m.get_spec(k)->0.key() == k && m.get_spec(k)->0.members_keyed()
}

/// Folding keeps every symbol under its own name
pub proof fn lemma_merges_keyed<T: Chronicled>(
    cur: SymbolMap<T>,
    dp: SymbolMap<T>,
    version: Option<Versioning>,
    r: SymbolMap<T>,
)
    requires
        merges(cur, dp, version, r),
        keyed(cur),
        keyed(dp),
    ensures
        keyed(r),
{
    assert forall|k: Seq<char>| #[trigger] r.contains_spec(k) implies r.get_spec(k)->0.key() == k
        && r.get_spec(k)->0.members_keyed() by {
        if dp.contains_spec(k) {
            let x = r.get_spec(k)->0;
            let d = dp.get_spec(k)->0;
            if cur.contains_spec(k) {
                assert(base_of(cur, dp, k) == cur.get_spec(k)->0);
            }
            base_of(cur, dp, k).lemma_absorbs_keyed(&d, version, &x);
        } else {
            assert(r.get_spec(k) == cur.get_spec(k));
            assert(cur.contains_spec(k));
        }
    }
}

/// Storing a symbol under its own name keeps a map keyed
pub proof fn lemma_keyed_insert<T: Chronicled>(m: SymbolMap<T>, r: SymbolMap<T>, key: Seq<char>, value: T)
    requires
        keyed(m),
        value.key() == key,
        value.members_keyed(),
        forall|k: Seq<char>| #[trigger] r.get_spec(k) == if k == key {
            Some(value)
        } else {
            m.get_spec(k)
        },
    ensures
        keyed(r),
{
    assert forall|k: Seq<char>| #[trigger] r.contains_spec(k) implies r.get_spec(k)->0.key() == k
        && r.get_spec(k)->0.members_keyed() by {
        if k != key {
            assert(m.contains_spec(k));
        }
    }
}

/// Stores `value` under its own name `key`
pub fn insert_keyed<T: Chronicled>(m: &mut SymbolMap<T>, key: String, value: T)
    requires
        keyed(*old(m)),
        value.key() == key@,
        value.members_keyed(),
    ensures
        keyed(*final(m)),
        forall|k: Seq<char>| #[trigger] final(m).get_spec(k) == if k == key@ {
            Some(value)
        } else {
            old(m).get_spec(k)
        },
{
    let ghost v = value;
    let ghost kv = key@;
    m.insert(key, value);
    proof {
        lemma_keyed_insert(*old(m), *m, kv, v);
    }
}

/// An empty map is keyed
pub proof fn lemma_keyed_empty<T: Chronicled>(m: SymbolMap<T>)
    requires
        forall|k: Seq<char>| #[trigger] m.get_spec(k) is None,
    ensures
        keyed(m),
{
}

/// Each symbol of a strand is stored under its own name, and so are the
/// members of each
pub open spec fn strand_keyed(s: Strand) -> bool {
    &&& keyed(s.functions)
    &&& keyed(s.methodmaps)
    &&& keyed(s.enumstructs)
    &&& keyed(s.constants)
    &&& keyed(s.defines)
    &&& keyed(s.enums)
    &&& keyed(s.typesets)
    &&& keyed(s.typedefs)
}

/// A symbol whose older and newer versions can be folded together
pub trait Chronicled: Metable + Sized {
    /// Whether the two compare equal, as `==` on the symbol does
    spec fn same(&self, other: &Self) -> bool;

    /// The symbol with its metadata replaced
    spec fn with_metadata(&self, m: Option<Metadata>) -> Self;

    /// The name the symbol is stored under: its declared name (a function
    /// type's signature)
    spec fn key(&self) -> Seq<char>;

    /// Whether each member of the symbol is stored under its own name
    spec fn members_keyed(&self) -> bool;

    /// Absorbing keeps the name, and members stay under their names
    proof fn lemma_absorbs_keyed(&self, dp: &Self, version: Option<Versioning>, r: &Self)
        requires
            self.absorbs(dp, version, r),
            self.key() == dp.key(),
            self.members_keyed(),
            dp.members_keyed(),
        ensures
            r.key() == self.key(),
            r.members_keyed();

    /// `r` is what `self` becomes once `dp`, a newer version of it, is
    /// folded in under `version`
    spec fn absorbs(&self, dp: &Self, version: Option<Versioning>, r: &Self) -> bool;

    proof fn lemma_same_reflexive(&self)
        ensures
            self.same(self);

    /// Whether the two compare equal
    fn same_as(&self, other: &Self) -> (b: bool)
        ensures
            b == self.same(other);

    /// Folds `dp`, a newer version of the symbol, into it
    fn absorb(self, dp: Self, version: &Option<Versioning>) -> (r: Self)
        ensures
            self.absorbs(&dp, *version, &r);

    /// Folds the symbol into a copy of itself, as happens to one that is new
    fn settle(self, version: &Option<Versioning>) -> (r: Self)
        ensures
            self.absorbs(&self, *version, &r);
}

/// What absorbing does to a symbol without members: one that compares equal
/// (`same`) keeps its content, one that changed takes the newer content; the
/// metadata is the older one's, stamped with the version
pub open spec fn absorbed_leaf<T: Metable>(cur: T, dp: T, same: bool, version: Option<Versioning>) -> T {
    if same {
        cur.with_meta(touched(cur.spec_metadata(), false, version))
    } else {
        dp.with_meta(touched(cur.spec_metadata(), true, version))
    }
}

/// Absorbs a symbol without members
fn absorb_leaf<T: Metable>(cur: T, dp: T, same: bool, version: &Option<Versioning>) -> (r: T)
    ensures
        r == absorbed_leaf(cur, dp, same, *version),
{
    proof {
        cur.lemma_with_meta(None, touched(cur.spec_metadata(), !same, *version));
        dp.lemma_with_meta(None, touched(cur.spec_metadata(), !same, *version));
    }
    let mut cur = cur;
    let mut m = cur.metadata().take();
    update_metadata(&mut m, !same, version);
    let mut r = if same { cur } else { dp };
    *r.metadata() = m;
    r
}

/// Settles a symbol without members
fn settle_leaf<T: Metable>(cur: T, version: &Option<Versioning>) -> (r: T)
    ensures
        r == absorbed_leaf(cur, cur, true, *version),
{
    proof {
        cur.lemma_with_meta(cur.spec_metadata(), touched(cur.spec_metadata(), false, *version));
    }
    let mut r = cur;
    update_metadata(r.metadata(), false, version);
    r
}

impl Metable for Function {
    open spec fn spec_metadata(&self) -> Option<Metadata> {
        self.declaration.documentation.metadata
    }

    open spec fn with_meta(&self, m: Option<Metadata>) -> Self {
        Function {
            declaration: declaration_with(self.declaration, m),
            kind: self.kind,
            return_type: self.return_type,
            arguments: self.arguments,
        }
    }

    proof fn lemma_with_meta(&self, a: Option<Metadata>, b: Option<Metadata>) {
    }

    fn metadata(&mut self) -> (r: &mut Option<Metadata>) {
        &mut self.declaration.documentation.metadata
    }
}

impl Chronicled for Function {
    open spec fn key(&self) -> Seq<char> {
        self.declaration.name@
    }

    open spec fn members_keyed(&self) -> bool {
        true
    }

    proof fn lemma_absorbs_keyed(&self, dp: &Self, version: Option<Versioning>, r: &Self) {
        assert(self.absorbs(dp, version, r));
        assert(self.with_meta(touched(self.spec_metadata(), false, version)).key() == self.key());
        assert(dp.with_meta(touched(self.spec_metadata(), true, version)).key() == dp.key());
    }

    open spec fn same(&self, other: &Self) -> bool {
        &&& same_declaration(self.declaration, other.declaration)
        &&& self.kind@ == other.kind@
        &&& self.return_type@ == other.return_type@
        &&& same_arguments(self.arguments@, other.arguments@)
    }

    open spec fn with_metadata(&self, m: Option<Metadata>) -> Self {
        self.with_meta(m)
    }

    open spec fn absorbs(&self, dp: &Self, version: Option<Versioning>, r: &Self) -> bool {
        *r == absorbed_leaf(*self, *dp, self.same(dp), version)
    }

    proof fn lemma_same_reflexive(&self) {
    }

    fn same_as(&self, other: &Self) -> (b: bool) {
        same_declaration_exec(&self.declaration, &other.declaration)
            && self.kind == other.kind
            && self.return_type == other.return_type
            && same_arguments_exec(&self.arguments, &other.arguments)
    }

    fn absorb(self, dp: Self, version: &Option<Versioning>) -> (r: Self) {
        let same = self.same_as(&dp);
        absorb_leaf(self, dp, same, version)
    }

    fn settle(self, version: &Option<Versioning>) -> (r: Self) {
        settle_leaf(self, version)
    }
}


/// Whether two argument lists differ: in length, or at some position in
/// the type, the name, the declaration or the default value
pub open spec fn arguments_differ(a: Seq<Argument>, b: Seq<Argument>) -> bool {
    a.len() != b.len() || exists|i: int|
        0 <= i < a.len() && (#[trigger] a[i].ty@ != b[i].ty@ || a[i].name@ != b[i].name@ || a[i].decl@ != b[i].decl@
            || opt_text(a[i].default) != opt_text(b[i].default))
}

/// Folding a newer version of a function into the stored one: when their
/// arguments differ in any way (a default value included), the newer
/// arguments, return type and kind are kept and the stored metadata is
/// stamped as updated in that version; when nothing differs at all, the
/// stored function is kept
pub proof fn law_function_folded(cur: Function, dp: Function, version: Option<Versioning>, r: Function)
    requires
        cur.absorbs(&dp, version, &r),
    ensures
        arguments_differ(cur.arguments@, dp.arguments@) ==> ({
            &&& r.arguments == dp.arguments
            &&& r.return_type == dp.return_type
            &&& r.kind == dp.kind
            &&& r.declaration.name == dp.declaration.name
            &&& version is Some && cur.declaration.documentation.metadata is Some ==> r.declaration.documentation.metadata
                == Some(Metadata { created: cur.declaration.documentation.metadata->0.created, last_updated: version })
        }),
        !arguments_differ(cur.arguments@, dp.arguments@) && cur.same(&dp) ==> r.arguments == cur.arguments
            && r.return_type == cur.return_type,
{
    let (x, y) = (cur.arguments@, dp.arguments@);
    if cur.same(&dp) {
        assert(same_arguments(x, y));
        assert forall|i: int| 0 <= i < x.len() implies !(#[trigger] x[i].ty@ != y[i].ty@ || x[i].name@ != y[i].name@
            || x[i].decl@ != y[i].decl@ || opt_text(x[i].default) != opt_text(y[i].default)) by {
            assert(same_argument(x[i], y[i]));
        }
        assert(!arguments_differ(x, y));
    }
}

impl Metable for Property {
    open spec fn spec_metadata(&self) -> Option<Metadata> {
        self.declaration.documentation.metadata
    }

    open spec fn with_meta(&self, m: Option<Metadata>) -> Self {
        Property {
            declaration: declaration_with(self.declaration, m),
            ty: self.ty,
            getter: self.getter,
            setter: self.setter,
        }
    }

    proof fn lemma_with_meta(&self, a: Option<Metadata>, b: Option<Metadata>) {
    }

    fn metadata(&mut self) -> (r: &mut Option<Metadata>) {
        &mut self.declaration.documentation.metadata
    }
}

impl Chronicled for Property {
    open spec fn key(&self) -> Seq<char> {
        self.declaration.name@
    }

    open spec fn members_keyed(&self) -> bool {
        true
    }

    proof fn lemma_absorbs_keyed(&self, dp: &Self, version: Option<Versioning>, r: &Self) {
        assert(self.absorbs(dp, version, r));
        assert(self.with_meta(touched(self.spec_metadata(), false, version)).key() == self.key());
        assert(dp.with_meta(touched(self.spec_metadata(), true, version)).key() == dp.key());
    }

    open spec fn same(&self, other: &Self) -> bool {
        &&& same_declaration(self.declaration, other.declaration)
        &&& self.ty@ == other.ty@
        &&& self.getter == other.getter
        &&& self.setter == other.setter
    }

    open spec fn with_metadata(&self, m: Option<Metadata>) -> Self {
        self.with_meta(m)
    }

    open spec fn absorbs(&self, dp: &Self, version: Option<Versioning>, r: &Self) -> bool {
        *r == absorbed_leaf(*self, *dp, self.same(dp), version)
    }

    proof fn lemma_same_reflexive(&self) {
    }

    fn same_as(&self, other: &Self) -> (b: bool) {
        same_declaration_exec(&self.declaration, &other.declaration)
            && self.ty == other.ty
            && self.getter == other.getter
            && self.setter == other.setter
    }

    fn absorb(self, dp: Self, version: &Option<Versioning>) -> (r: Self) {
        let same = self.same_as(&dp);
        absorb_leaf(self, dp, same, version)
    }

    fn settle(self, version: &Option<Versioning>) -> (r: Self) {
        settle_leaf(self, version)
    }
}

impl Metable for Field {
    open spec fn spec_metadata(&self) -> Option<Metadata> {
        self.declaration.documentation.metadata
    }

    open spec fn with_meta(&self, m: Option<Metadata>) -> Self {
        Field {
            declaration: declaration_with(self.declaration, m),
            ty: self.ty,
        }
    }

    proof fn lemma_with_meta(&self, a: Option<Metadata>, b: Option<Metadata>) {
    }

    fn metadata(&mut self) -> (r: &mut Option<Metadata>) {
        &mut self.declaration.documentation.metadata
    }
}

impl Chronicled for Field {
    open spec fn key(&self) -> Seq<char> {
        self.declaration.name@
    }

    open spec fn members_keyed(&self) -> bool {
        true
    }

    proof fn lemma_absorbs_keyed(&self, dp: &Self, version: Option<Versioning>, r: &Self) {
        assert(self.absorbs(dp, version, r));
        assert(self.with_meta(touched(self.spec_metadata(), false, version)).key() == self.key());
        assert(dp.with_meta(touched(self.spec_metadata(), true, version)).key() == dp.key());
    }

    open spec fn same(&self, other: &Self) -> bool {
        &&& same_declaration(self.declaration, other.declaration)
        &&& self.ty@ == other.ty@
    }

    open spec fn with_metadata(&self, m: Option<Metadata>) -> Self {
        self.with_meta(m)
    }

    open spec fn absorbs(&self, dp: &Self, version: Option<Versioning>, r: &Self) -> bool {
        *r == absorbed_leaf(*self, *dp, self.same(dp), version)
    }

    proof fn lemma_same_reflexive(&self) {
    }

    fn same_as(&self, other: &Self) -> (b: bool) {
        same_declaration_exec(&self.declaration, &other.declaration)
            && self.ty == other.ty
    }

    fn absorb(self, dp: Self, version: &Option<Versioning>) -> (r: Self) {
        let same = self.same_as(&dp);
        absorb_leaf(self, dp, same, version)
    }

    fn settle(self, version: &Option<Versioning>) -> (r: Self) {
        settle_leaf(self, version)
    }
}

impl Metable for Entry {
    open spec fn spec_metadata(&self) -> Option<Metadata> {
        self.declaration.documentation.metadata
    }

    open spec fn with_meta(&self, m: Option<Metadata>) -> Self {
        Entry {
            declaration: declaration_with(self.declaration, m),
            value: self.value,
        }
    }

    proof fn lemma_with_meta(&self, a: Option<Metadata>, b: Option<Metadata>) {
    }

    fn metadata(&mut self) -> (r: &mut Option<Metadata>) {
        &mut self.declaration.documentation.metadata
    }
}

impl Chronicled for Entry {
    open spec fn key(&self) -> Seq<char> {
        self.declaration.name@
    }

    open spec fn members_keyed(&self) -> bool {
        true
    }

    proof fn lemma_absorbs_keyed(&self, dp: &Self, version: Option<Versioning>, r: &Self) {
        assert(self.absorbs(dp, version, r));
        assert(self.with_meta(touched(self.spec_metadata(), false, version)).key() == self.key());
        assert(dp.with_meta(touched(self.spec_metadata(), true, version)).key() == dp.key());
    }

    open spec fn same(&self, other: &Self) -> bool {
        &&& same_declaration(self.declaration, other.declaration)
        &&& opt_text(self.value) == opt_text(other.value)
    }

    open spec fn with_metadata(&self, m: Option<Metadata>) -> Self {
        self.with_meta(m)
    }

    open spec fn absorbs(&self, dp: &Self, version: Option<Versioning>, r: &Self) -> bool {
        *r == absorbed_leaf(*self, *dp, self.same(dp), version)
    }

    proof fn lemma_same_reflexive(&self) {
    }

    fn same_as(&self, other: &Self) -> (b: bool) {
        same_declaration_exec(&self.declaration, &other.declaration)
            && same_opt_text(&self.value, &other.value)
    }

    fn absorb(self, dp: Self, version: &Option<Versioning>) -> (r: Self) {
        let same = self.same_as(&dp);
        absorb_leaf(self, dp, same, version)
    }

    fn settle(self, version: &Option<Versioning>) -> (r: Self) {
        settle_leaf(self, version)
    }
}

impl Metable for Constant {
    open spec fn spec_metadata(&self) -> Option<Metadata> {
        self.declaration.documentation.metadata
    }

    open spec fn with_meta(&self, m: Option<Metadata>) -> Self {
        Constant {
            declaration: declaration_with(self.declaration, m),
        }
    }

    proof fn lemma_with_meta(&self, a: Option<Metadata>, b: Option<Metadata>) {
    }

    fn metadata(&mut self) -> (r: &mut Option<Metadata>) {
        &mut self.declaration.documentation.metadata
    }
}

impl Chronicled for Constant {
    open spec fn key(&self) -> Seq<char> {
        self.declaration.name@
    }

    open spec fn members_keyed(&self) -> bool {
        true
    }

    proof fn lemma_absorbs_keyed(&self, dp: &Self, version: Option<Versioning>, r: &Self) {
        assert(self.absorbs(dp, version, r));
        assert(self.with_meta(touched(self.spec_metadata(), false, version)).key() == self.key());
        assert(dp.with_meta(touched(self.spec_metadata(), true, version)).key() == dp.key());
    }

    open spec fn same(&self, other: &Self) -> bool {
        &&& same_declaration(self.declaration, other.declaration)
    }

    open spec fn with_metadata(&self, m: Option<Metadata>) -> Self {
        self.with_meta(m)
    }

    open spec fn absorbs(&self, dp: &Self, version: Option<Versioning>, r: &Self) -> bool {
        *r == absorbed_leaf(*self, *dp, self.same(dp), version)
    }

    proof fn lemma_same_reflexive(&self) {
    }

    fn same_as(&self, other: &Self) -> (b: bool) {
        same_declaration_exec(&self.declaration, &other.declaration)
    }

    fn absorb(self, dp: Self, version: &Option<Versioning>) -> (r: Self) {
        let same = self.same_as(&dp);
        absorb_leaf(self, dp, same, version)
    }

    fn settle(self, version: &Option<Versioning>) -> (r: Self) {
        settle_leaf(self, version)
    }
}

impl Metable for Define {
    open spec fn spec_metadata(&self) -> Option<Metadata> {
        self.declaration.documentation.metadata
    }

    open spec fn with_meta(&self, m: Option<Metadata>) -> Self {
        Define {
            declaration: declaration_with(self.declaration, m),
            value: self.value,
        }
    }

    proof fn lemma_with_meta(&self, a: Option<Metadata>, b: Option<Metadata>) {
    }

    fn metadata(&mut self) -> (r: &mut Option<Metadata>) {
        &mut self.declaration.documentation.metadata
    }
}

impl Chronicled for Define {
    open spec fn key(&self) -> Seq<char> {
        self.declaration.name@
    }

    open spec fn members_keyed(&self) -> bool {
        true
    }

    proof fn lemma_absorbs_keyed(&self, dp: &Self, version: Option<Versioning>, r: &Self) {
        assert(self.absorbs(dp, version, r));
        assert(self.with_meta(touched(self.spec_metadata(), false, version)).key() == self.key());
        assert(dp.with_meta(touched(self.spec_metadata(), true, version)).key() == dp.key());
    }

    open spec fn same(&self, other: &Self) -> bool {
        &&& same_declaration(self.declaration, other.declaration)
        &&& self.value@ == other.value@
    }

    open spec fn with_metadata(&self, m: Option<Metadata>) -> Self {
        self.with_meta(m)
    }

    open spec fn absorbs(&self, dp: &Self, version: Option<Versioning>, r: &Self) -> bool {
        *r == absorbed_leaf(*self, *dp, self.same(dp), version)
    }

    proof fn lemma_same_reflexive(&self) {
    }

    fn same_as(&self, other: &Self) -> (b: bool) {
        same_declaration_exec(&self.declaration, &other.declaration)
            && self.value == other.value
    }

    fn absorb(self, dp: Self, version: &Option<Versioning>) -> (r: Self) {
        let same = self.same_as(&dp);
        absorb_leaf(self, dp, same, version)
    }

    fn settle(self, version: &Option<Versioning>) -> (r: Self) {
        settle_leaf(self, version)
    }
}

impl Metable for TypeDefinition {
    open spec fn spec_metadata(&self) -> Option<Metadata> {
        self.declaration.documentation.metadata
    }

    open spec fn with_meta(&self, m: Option<Metadata>) -> Self {
        TypeDefinition {
            declaration: declaration_with(self.declaration, m),
            ty: self.ty,
            parsed_signature: self.parsed_signature,
        }
    }

    proof fn lemma_with_meta(&self, a: Option<Metadata>, b: Option<Metadata>) {
    }

    fn metadata(&mut self) -> (r: &mut Option<Metadata>) {
        &mut self.declaration.documentation.metadata
    }
}

impl Chronicled for TypeDefinition {
    open spec fn key(&self) -> Seq<char> {
        self.declaration.name@
    }

    open spec fn members_keyed(&self) -> bool {
        true
    }

    proof fn lemma_absorbs_keyed(&self, dp: &Self, version: Option<Versioning>, r: &Self) {
        assert(self.absorbs(dp, version, r));
        assert(self.with_meta(touched(self.spec_metadata(), false, version)).key() == self.key());
        assert(dp.with_meta(touched(self.spec_metadata(), true, version)).key() == dp.key());
    }

    open spec fn same(&self, other: &Self) -> bool {
        &&& same_declaration(self.declaration, other.declaration)
        &&& self.ty@ == other.ty@
        &&& same_signature(self.parsed_signature, other.parsed_signature)
    }

    open spec fn with_metadata(&self, m: Option<Metadata>) -> Self {
        self.with_meta(m)
    }

    open spec fn absorbs(&self, dp: &Self, version: Option<Versioning>, r: &Self) -> bool {
        *r == absorbed_leaf(*self, *dp, self.same(dp), version)
    }

    proof fn lemma_same_reflexive(&self) {
    }

    fn same_as(&self, other: &Self) -> (b: bool) {
        same_declaration_exec(&self.declaration, &other.declaration)
            && self.ty == other.ty
            && same_signature_exec(&self.parsed_signature, &other.parsed_signature)
    }

    fn absorb(self, dp: Self, version: &Option<Versioning>) -> (r: Self) {
        let same = self.same_as(&dp);
        absorb_leaf(self, dp, same, version)
    }

    fn settle(self, version: &Option<Versioning>) -> (r: Self) {
        settle_leaf(self, version)
    }
}

impl Metable for Type {
    open spec fn spec_metadata(&self) -> Option<Metadata> {
        self.documentation.metadata
    }

    open spec fn with_meta(&self, m: Option<Metadata>) -> Self {
        Type {
            documentation: documentation_with(self.documentation, m),
            ty: self.ty,
            parsed_signature: self.parsed_signature,
        }
    }

    proof fn lemma_with_meta(&self, a: Option<Metadata>, b: Option<Metadata>) {
    }

    fn metadata(&mut self) -> (r: &mut Option<Metadata>) {
        &mut self.documentation.metadata
    }
}

impl Chronicled for Type {
    open spec fn key(&self) -> Seq<char> {
        self.ty@
    }

    open spec fn members_keyed(&self) -> bool {
        true
    }

    proof fn lemma_absorbs_keyed(&self, dp: &Self, version: Option<Versioning>, r: &Self) {
        assert(self.absorbs(dp, version, r));
        assert(self.with_meta(touched(self.spec_metadata(), false, version)).key() == self.key());
        assert(dp.with_meta(touched(self.spec_metadata(), true, version)).key() == dp.key());
    }

    open spec fn same(&self, other: &Self) -> bool {
        &&& same_documentation(self.documentation, other.documentation)
        &&& self.ty@ == other.ty@
        &&& same_signature(self.parsed_signature, other.parsed_signature)
    }

    open spec fn with_metadata(&self, m: Option<Metadata>) -> Self {
        self.with_meta(m)
    }

    open spec fn absorbs(&self, dp: &Self, version: Option<Versioning>, r: &Self) -> bool {
        *r == absorbed_leaf(*self, *dp, self.same(dp), version)
    }

    proof fn lemma_same_reflexive(&self) {
    }

    fn same_as(&self, other: &Self) -> (b: bool) {
        same_docs_exec(&self.documentation.docs, &other.documentation.docs)
            && self.ty == other.ty
            && same_signature_exec(&self.parsed_signature, &other.parsed_signature)
    }

    fn absorb(self, dp: Self, version: &Option<Versioning>) -> (r: Self) {
        let same = self.same_as(&dp);
        absorb_leaf(self, dp, same, version)
    }

    fn settle(self, version: &Option<Versioning>) -> (r: Self) {
        settle_leaf(self, version)
    }
}

impl Metable for MethodMap {
    open spec fn spec_metadata(&self) -> Option<Metadata> {
        self.declaration.documentation.metadata
    }

    open spec fn with_meta(&self, m: Option<Metadata>) -> Self {
        MethodMap {
            declaration: declaration_with(self.declaration, m),
            parent: self.parent,
            methods: self.methods,
            properties: self.properties,
        }
    }

    proof fn lemma_with_meta(&self, a: Option<Metadata>, b: Option<Metadata>) {
    }

    fn metadata(&mut self) -> (r: &mut Option<Metadata>) {
        &mut self.declaration.documentation.metadata
    }
}

impl Chronicled for MethodMap {
    open spec fn key(&self) -> Seq<char> {
        self.declaration.name@
    }

    open spec fn members_keyed(&self) -> bool {
        keyed(self.methods) && keyed(self.properties)
    }

    proof fn lemma_absorbs_keyed(&self, dp: &Self, version: Option<Versioning>, r: &Self) {
        assert(self.absorbs(dp, version, r));
        if self.same(dp) {
            lemma_merges_keyed(self.methods, dp.methods, version, r.methods);
            lemma_merges_keyed(self.properties, dp.properties, version, r.properties);
        } else {
            lemma_merges_keyed(dp.methods, dp.methods, version, r.methods);
            lemma_merges_keyed(dp.properties, dp.properties, version, r.properties);
        }
    }

    open spec fn same(&self, other: &Self) -> bool {
        same_declaration(self.declaration, other.declaration) && opt_text(self.parent) == opt_text(other.parent) && same_map(self.methods, other.methods) && same_map(self.properties, other.properties)
    }

    open spec fn with_metadata(&self, m: Option<Metadata>) -> Self {
        self.with_meta(m)
    }

    /// A symbol that compares equal keeps its content and folds the newer
    /// members into its own; one that changed takes the newer content,
    /// members included
    open spec fn absorbs(&self, dp: &Self, version: Option<Versioning>, r: &Self) -> bool {
        if self.same(dp) {
            &&& r.declaration == declaration_with(self.declaration, touched(self.spec_metadata(), false, version))
            &&& r.parent == self.parent
            &&& merges(self.methods, dp.methods, version, r.methods)
            &&& merges(self.properties, dp.properties, version, r.properties)
        } else {
            &&& r.declaration == declaration_with(dp.declaration, touched(self.spec_metadata(), true, version))
            &&& r.parent == dp.parent
            &&& merges(dp.methods, dp.methods, version, r.methods)
            &&& merges(dp.properties, dp.properties, version, r.properties)
        }
    }

    proof fn lemma_same_reflexive(&self) {
        lemma_same_map_reflexive(self.methods);
        lemma_same_map_reflexive(self.properties);
    }

    fn same_as(&self, other: &Self) -> (b: bool) {
        same_declaration_exec(&self.declaration, &other.declaration)
            && same_opt_text(&self.parent, &other.parent)
            && same_map_exec(&self.methods, &other.methods)
            && same_map_exec(&self.properties, &other.properties)
    }

    fn absorb(self, dp: Self, version: &Option<Versioning>) -> (r: Self) {
        let same = self.same_as(&dp);
        let ghost old_cur = self;
        let ghost old_dp = dp;
        let mut cur = self;
        let mut m = cur.metadata().take();
        update_metadata(&mut m, !same, version);
        if same {
            let n0 = cur.methods.absorb_all(dp.methods, version);
            let n1 = cur.properties.absorb_all(dp.properties, version);
            proof {
                lemma_same_map_no_fresh(old_cur.methods, old_dp.methods);
                lemma_same_map_no_fresh(old_cur.properties, old_dp.properties);
            }
            assert(n0 + n1 == 0);
            cur.declaration.documentation.metadata = m;
            cur
        } else {
            let mut r = dp;
            r.methods.settle_all(version);
            r.properties.settle_all(version);
            r.declaration.documentation.metadata = m;
            r
        }
    }

    fn settle(self, version: &Option<Versioning>) -> (r: Self) {
        proof {
            self.lemma_same_reflexive();
        }
        let mut r = self;
        update_metadata(r.metadata(), false, version);
        r.methods.settle_all(version);
        r.properties.settle_all(version);
        r
    }
}

impl Metable for EnumStruct {
    open spec fn spec_metadata(&self) -> Option<Metadata> {
        self.declaration.documentation.metadata
    }

    open spec fn with_meta(&self, m: Option<Metadata>) -> Self {
        EnumStruct {
            declaration: declaration_with(self.declaration, m),
            methods: self.methods,
            fields: self.fields,
        }
    }

    proof fn lemma_with_meta(&self, a: Option<Metadata>, b: Option<Metadata>) {
    }

    fn metadata(&mut self) -> (r: &mut Option<Metadata>) {
        &mut self.declaration.documentation.metadata
    }
}

impl Chronicled for EnumStruct {
    open spec fn key(&self) -> Seq<char> {
        self.declaration.name@
    }

    open spec fn members_keyed(&self) -> bool {
        keyed(self.methods) && keyed(self.fields)
    }

    proof fn lemma_absorbs_keyed(&self, dp: &Self, version: Option<Versioning>, r: &Self) {
        assert(self.absorbs(dp, version, r));
        if self.same(dp) {
            lemma_merges_keyed(self.methods, dp.methods, version, r.methods);
            lemma_merges_keyed(self.fields, dp.fields, version, r.fields);
        } else {
            lemma_merges_keyed(dp.methods, dp.methods, version, r.methods);
            lemma_merges_keyed(dp.fields, dp.fields, version, r.fields);
        }
    }

    open spec fn same(&self, other: &Self) -> bool {
        same_declaration(self.declaration, other.declaration) && same_map(self.methods, other.methods) && same_map(self.fields, other.fields)
    }

    open spec fn with_metadata(&self, m: Option<Metadata>) -> Self {
        self.with_meta(m)
    }

    /// A symbol that compares equal keeps its content and folds the newer
    /// members into its own; one that changed takes the newer content,
    /// members included
    open spec fn absorbs(&self, dp: &Self, version: Option<Versioning>, r: &Self) -> bool {
        if self.same(dp) {
            &&& r.declaration == declaration_with(self.declaration, touched(self.spec_metadata(), false, version))
            &&& merges(self.methods, dp.methods, version, r.methods)
            &&& merges(self.fields, dp.fields, version, r.fields)
        } else {
            &&& r.declaration == declaration_with(dp.declaration, touched(self.spec_metadata(), true, version))
            &&& merges(dp.methods, dp.methods, version, r.methods)
            &&& merges(dp.fields, dp.fields, version, r.fields)
        }
    }

    proof fn lemma_same_reflexive(&self) {
        lemma_same_map_reflexive(self.methods);
        lemma_same_map_reflexive(self.fields);
    }

    fn same_as(&self, other: &Self) -> (b: bool) {
        same_declaration_exec(&self.declaration, &other.declaration)
            && same_map_exec(&self.methods, &other.methods)
            && same_map_exec(&self.fields, &other.fields)
    }

    fn absorb(self, dp: Self, version: &Option<Versioning>) -> (r: Self) {
        let same = self.same_as(&dp);
        let ghost old_cur = self;
        let ghost old_dp = dp;
        let mut cur = self;
        let mut m = cur.metadata().take();
        update_metadata(&mut m, !same, version);
        if same {
            let n0 = cur.methods.absorb_all(dp.methods, version);
            let n1 = cur.fields.absorb_all(dp.fields, version);
            proof {
                lemma_same_map_no_fresh(old_cur.methods, old_dp.methods);
                lemma_same_map_no_fresh(old_cur.fields, old_dp.fields);
            }
            assert(n0 + n1 == 0);
            cur.declaration.documentation.metadata = m;
            cur
        } else {
            let mut r = dp;
            r.methods.settle_all(version);
            r.fields.settle_all(version);
            r.declaration.documentation.metadata = m;
            r
        }
    }

    fn settle(self, version: &Option<Versioning>) -> (r: Self) {
        proof {
            self.lemma_same_reflexive();
        }
        let mut r = self;
        update_metadata(r.metadata(), false, version);
        r.methods.settle_all(version);
        r.fields.settle_all(version);
        r
    }
}

impl Metable for Enumeration {
    open spec fn spec_metadata(&self) -> Option<Metadata> {
        self.declaration.documentation.metadata
    }

    open spec fn with_meta(&self, m: Option<Metadata>) -> Self {
        Enumeration {
            declaration: declaration_with(self.declaration, m),
            entries: self.entries,
        }
    }

    proof fn lemma_with_meta(&self, a: Option<Metadata>, b: Option<Metadata>) {
    }

    fn metadata(&mut self) -> (r: &mut Option<Metadata>) {
        &mut self.declaration.documentation.metadata
    }
}

impl Chronicled for Enumeration {
    open spec fn key(&self) -> Seq<char> {
        self.declaration.name@
    }

    open spec fn members_keyed(&self) -> bool {
        keyed(self.entries)
    }

    proof fn lemma_absorbs_keyed(&self, dp: &Self, version: Option<Versioning>, r: &Self) {
        assert(self.absorbs(dp, version, r));
        if self.same(dp) {
            lemma_merges_keyed(self.entries, dp.entries, version, r.entries);
        } else {
            lemma_merges_keyed(dp.entries, dp.entries, version, r.entries);
        }
    }

    open spec fn same(&self, other: &Self) -> bool {
        same_declaration(self.declaration, other.declaration) && same_map(self.entries, other.entries)
    }

    open spec fn with_metadata(&self, m: Option<Metadata>) -> Self {
        self.with_meta(m)
    }

    /// A symbol that compares equal keeps its content and folds the newer
    /// members into its own; one that changed takes the newer content,
    /// members included
    open spec fn absorbs(&self, dp: &Self, version: Option<Versioning>, r: &Self) -> bool {
        if self.same(dp) {
            &&& r.declaration == declaration_with(self.declaration, touched(self.spec_metadata(), false, version))
            &&& merges(self.entries, dp.entries, version, r.entries)
        } else {
            &&& r.declaration == declaration_with(dp.declaration, touched(self.spec_metadata(), true, version))
            &&& merges(dp.entries, dp.entries, version, r.entries)
        }
    }

    proof fn lemma_same_reflexive(&self) {
        lemma_same_map_reflexive(self.entries);
    }

    fn same_as(&self, other: &Self) -> (b: bool) {
        same_declaration_exec(&self.declaration, &other.declaration)
            && same_map_exec(&self.entries, &other.entries)
    }

    fn absorb(self, dp: Self, version: &Option<Versioning>) -> (r: Self) {
        let same = self.same_as(&dp);
        let ghost old_cur = self;
        let ghost old_dp = dp;
        let mut cur = self;
        let mut m = cur.metadata().take();
        update_metadata(&mut m, !same, version);
        if same {
            let n0 = cur.entries.absorb_all(dp.entries, version);
            proof {
                lemma_same_map_no_fresh(old_cur.entries, old_dp.entries);
            }
            assert(n0 == 0);
            cur.declaration.documentation.metadata = m;
            cur
        } else {
            let mut r = dp;
            r.entries.settle_all(version);
            r.declaration.documentation.metadata = m;
            r
        }
    }

    fn settle(self, version: &Option<Versioning>) -> (r: Self) {
        proof {
            self.lemma_same_reflexive();
        }
        let mut r = self;
        update_metadata(r.metadata(), false, version);
        r.entries.settle_all(version);
        r
    }
}

impl Metable for TypeSet {
    open spec fn spec_metadata(&self) -> Option<Metadata> {
        self.declaration.documentation.metadata
    }

    open spec fn with_meta(&self, m: Option<Metadata>) -> Self {
        TypeSet {
            declaration: declaration_with(self.declaration, m),
            types: self.types,
        }
    }

    proof fn lemma_with_meta(&self, a: Option<Metadata>, b: Option<Metadata>) {
    }

    fn metadata(&mut self) -> (r: &mut Option<Metadata>) {
        &mut self.declaration.documentation.metadata
    }
}

impl Chronicled for TypeSet {
    open spec fn key(&self) -> Seq<char> {
        self.declaration.name@
    }

    open spec fn members_keyed(&self) -> bool {
        keyed(self.types)
    }

    proof fn lemma_absorbs_keyed(&self, dp: &Self, version: Option<Versioning>, r: &Self) {
        assert(self.absorbs(dp, version, r));
        if self.same(dp) {
            lemma_merges_keyed(self.types, dp.types, version, r.types);
        } else {
            lemma_merges_keyed(dp.types, dp.types, version, r.types);
        }
    }

    open spec fn same(&self, other: &Self) -> bool {
        same_declaration(self.declaration, other.declaration) && same_map(self.types, other.types)
    }

    open spec fn with_metadata(&self, m: Option<Metadata>) -> Self {
        self.with_meta(m)
    }

    /// A symbol that compares equal keeps its content and folds the newer
    /// members into its own; one that changed takes the newer content,
    /// members included
    open spec fn absorbs(&self, dp: &Self, version: Option<Versioning>, r: &Self) -> bool {
        if self.same(dp) {
            &&& r.declaration == declaration_with(self.declaration, touched(self.spec_metadata(), false, version))
            &&& merges(self.types, dp.types, version, r.types)
        } else {
            &&& r.declaration == declaration_with(dp.declaration, touched(self.spec_metadata(), true, version))
            &&& merges(dp.types, dp.types, version, r.types)
        }
    }

    proof fn lemma_same_reflexive(&self) {
        lemma_same_map_reflexive(self.types);
    }

    fn same_as(&self, other: &Self) -> (b: bool) {
        same_declaration_exec(&self.declaration, &other.declaration)
            && same_map_exec(&self.types, &other.types)
    }

    fn absorb(self, dp: Self, version: &Option<Versioning>) -> (r: Self) {
        let same = self.same_as(&dp);
        let ghost old_cur = self;
        let ghost old_dp = dp;
        let mut cur = self;
        let mut m = cur.metadata().take();
        update_metadata(&mut m, !same, version);
        if same {
            let n0 = cur.types.absorb_all(dp.types, version);
            proof {
                lemma_same_map_no_fresh(old_cur.types, old_dp.types);
            }
            assert(n0 == 0);
            cur.declaration.documentation.metadata = m;
            cur
        } else {
            let mut r = dp;
            r.types.settle_all(version);
            r.declaration.documentation.metadata = m;
            r
        }
    }

    fn settle(self, version: &Option<Versioning>) -> (r: Self) {
        proof {
            self.lemma_same_reflexive();
        }
        let mut r = self;
        update_metadata(r.metadata(), false, version);
        r.types.settle_all(version);
        r
    }
}

/// `r` is the strand `cur` once each symbol of `dp`, a newer version of the
/// strand, is folded in, kind by kind
pub open spec fn strand_absorbs(cur: Strand, dp: Strand, version: Option<Versioning>, r: Strand) -> bool {
    &&& merges(cur.functions, dp.functions, version, r.functions)
    &&& merges(cur.methodmaps, dp.methodmaps, version, r.methodmaps)
    &&& merges(cur.enumstructs, dp.enumstructs, version, r.enumstructs)
    &&& merges(cur.constants, dp.constants, version, r.constants)
    &&& merges(cur.defines, dp.defines, version, r.defines)
    &&& merges(cur.enums, dp.enums, version, r.enums)
    &&& merges(cur.typesets, dp.typesets, version, r.typesets)
    &&& merges(cur.typedefs, dp.typedefs, version, r.typedefs)
}

/// How many symbols of `dp` the strand `cur` lacks
pub open spec fn strand_fresh(cur: Strand, dp: Strand) -> nat {
    fresh_names(cur.functions, dp.functions.keys()).len() + fresh_names(cur.methodmaps, dp.methodmaps.keys()).len()
        + fresh_names(cur.enumstructs, dp.enumstructs.keys()).len() + fresh_names(cur.constants, dp.constants.keys()).len()
        + fresh_names(cur.defines, dp.defines.keys()).len() + fresh_names(cur.enums, dp.enums.keys()).len()
        + fresh_names(cur.typesets, dp.typesets.keys()).len() + fresh_names(cur.typedefs, dp.typedefs.keys()).len()
}

/// How many symbols a strand has
pub open spec fn strand_len(s: Strand) -> nat {
    s.functions.keys().len() + s.methodmaps.keys().len() + s.enumstructs.keys().len() + s.constants.keys().len()
        + s.defines.keys().len() + s.enums.keys().len() + s.typesets.keys().len() + s.typedefs.keys().len()
}

/// Folds `dp`, a newer version of `strand`, into it; returns how many of its
/// symbols were new
pub fn process(strand: &mut Strand, dp: Strand, version: &Option<Versioning>) -> (diffs: u64)
    requires
        strand_len(dp) <= u64::MAX,
    ensures
        strand_absorbs(*old(strand), dp, *version, *final(strand)),
        diffs == strand_fresh(*old(strand), dp),
{
    let ghost d0 = dp;
    let ghost s0 = *strand;
    proof {
        lemma_fresh_names_len(s0.functions, d0.functions.keys());
        lemma_fresh_names_len(s0.methodmaps, d0.methodmaps.keys());
        lemma_fresh_names_len(s0.enumstructs, d0.enumstructs.keys());
        lemma_fresh_names_len(s0.constants, d0.constants.keys());
        lemma_fresh_names_len(s0.defines, d0.defines.keys());
        lemma_fresh_names_len(s0.enums, d0.enums.keys());
        lemma_fresh_names_len(s0.typesets, d0.typesets.keys());
        lemma_fresh_names_len(s0.typedefs, d0.typedefs.keys());
    }
    let Strand { functions, methodmaps, enumstructs, constants, defines, enums, typesets, typedefs } = dp;
    let a = strand.functions.absorb_all(functions, version) as u64;
    let b = strand.methodmaps.absorb_all(methodmaps, version) as u64;
    let c = strand.enumstructs.absorb_all(enumstructs, version) as u64;
    let d = strand.constants.absorb_all(constants, version) as u64;
    let e = strand.defines.absorb_all(defines, version) as u64;
    let f = strand.enums.absorb_all(enums, version) as u64;
    let g = strand.typesets.absorb_all(typesets, version) as u64;
    let h = strand.typedefs.absorb_all(typedefs, version) as u64;
    a + b + c + d + e + f + g + h
}

/// Folds every symbol of a strand that is new into a copy of itself
fn settle_strand(s: &mut Strand, version: &Option<Versioning>)
    ensures
        strand_absorbs(*old(s), *old(s), *version, *final(s)),
        strand_fresh(*old(s), *old(s)) == 0,
{
    proof {
        lemma_own_names(s.functions);
        lemma_own_names(s.methodmaps);
        lemma_own_names(s.enumstructs);
        lemma_own_names(s.constants);
        lemma_own_names(s.defines);
        lemma_own_names(s.enums);
        lemma_own_names(s.typesets);
        lemma_own_names(s.typedefs);
    }
    s.functions.settle_all(version);
    s.methodmaps.settle_all(version);
    s.enumstructs.settle_all(version);
    s.constants.settle_all(version);
    s.defines.settle_all(version);
    s.enums.settle_all(version);
    s.typesets.settle_all(version);
    s.typedefs.settle_all(version);
}

/// None of a map's own names is fresh to it
pub proof fn lemma_own_names<T>(m: SymbolMap<T>)
    ensures
        fresh_names(m, m.keys()) == Seq::<Seq<char>>::empty(),
{
    assert forall|i: int| 0 <= i < m.keys().len() implies m.contains_spec(#[trigger] m.keys()[i]) by {
        lemma_contains_keys(m, m.keys()[i]);
    }
    lemma_fresh_names_none(m, m.keys());
}

/// Each strand of a bundle keeps its symbols under their names
pub open spec fn bundle_keyed(b: Bundle) -> bool {
    forall|k: Seq<char>| #[trigger] b.strands.contains_spec(k) ==> strand_keyed(b.strands.get_spec(k)->0)
}

/// The strand that `dp`, the strand of the include file `key`, is folded into:
/// the bundle's strand of that name or, for a new file, `dp` itself
pub open spec fn strand_base(bundle: Bundle, key: Seq<char>, dp: Strand) -> Strand {
    match bundle.strands.get_spec(key) {
        Some(s) => s,
        None => dp,
    }
}

/// What folding `dp`, the strand of the include file `key` at `version`,
/// into `b0` gives: `b1`, with `d` differences
pub open spec fn chronicle_absorbed(b0: Bundle, version: Option<Versioning>, key: Seq<char>, dp: Strand, b1: Bundle, d: nat) -> bool {
    &&& b1.strands.get_spec(key) matches Some(r) && strand_absorbs(strand_base(b0, key, dp), dp, version, r)
    &&& forall|k: Seq<char>| k != key ==> #[trigger] b1.strands.get_spec(k) == b0.strands.get_spec(k)
    &&& b0.strands.contains_spec(key) ==> b1.strands.keys() == b0.strands.keys()
    &&& !b0.strands.contains_spec(key) ==> b1.strands.keys() == b0.strands.keys().push(key)
    &&& b1.meta == b0.meta
    &&& b1.source == b0.source
    &&& b1.version == b0.version
    &&& d == (if b0.strands.contains_spec(key) { 0nat } else { 1nat }) + strand_fresh(strand_base(b0, key, dp), dp)
    &&& bundle_keyed(b0) && strand_keyed(dp) ==> bundle_keyed(b1)
}

/// What folding one file of a chronicle does, given what parsing its
/// content gave: a parsed strand that fits the count is folded in; anything
/// else leaves the bundle as it is
pub open spec fn file_folded(
    b0: Bundle,
    version: Option<Versioning>,
    key: Seq<char>,
    parsed: Option<Result<Strand, AlternatorError>>,
    b1: Bundle,
    d: nat,
) -> bool {
    match parsed {
        Some(Ok(dp)) => if strand_len(dp) <= u64::MAX {
            chronicle_absorbed(b0, version, key, dp, b1, d)
        } else {
            b1 == b0 && d == 0
        },
        _ => b1 == b0 && d == 0,
    }
}

/// The sum of counts
pub open spec fn nat_sum(ds: Seq<nat>) -> nat
    decreases ds.len(),
{
    if ds.len() == 0 {
        0
    } else {
        nat_sum(ds.drop_last()) + ds.last()
    }
}

/// `bs` are the bundles folding the files `fs` in order passes through,
/// from `b0`, with `ds` the differences of each step and `ps` what parsing
/// each file's content gave
pub open spec fn files_trace(
    b0: Bundle,
    version: Option<Versioning>,
    fs: Seq<(Seq<char>, Seq<u8>)>,
    bs: Seq<Bundle>,
    ds: Seq<nat>,
    ps: Seq<Option<Result<Strand, AlternatorError>>>,
) -> bool {
    &&& bs.len() == fs.len() + 1
    &&& ds.len() == fs.len()
    &&& ps.len() == fs.len()
    &&& bs[0] == b0
    &&& forall|i: int|
        0 <= i < fs.len() ==> checked_outcome(fs[i].1, #[trigger] ps[i]) && file_folded(bs[i], version, fs[i].0, ps[i], bs[i + 1], ds[i])
}

/// `b` and `d` can come of folding the files `fs`, in order, into `b0`:
/// each file's content parsed as `parse_bytes_checked` does
pub open spec fn files_folded(b0: Bundle, version: Option<Versioning>, fs: Seq<(Seq<char>, Seq<u8>)>, b: Bundle, d: nat) -> bool {
    exists|bs: Seq<Bundle>, ds: Seq<nat>, ps: Seq<Option<Result<Strand, AlternatorError>>>|
        #[trigger] files_trace(b0, version, fs, bs, ds, ps) && bs.last() == b && d == nat_sum(ds)
}

/// The files of a chronicle as (name, content), in order
pub open spec fn chronicle_files(c: Chronicle) -> Seq<(Seq<char>, Seq<u8>)> {
    Seq::new(c.files.keys().len(), |i: int| (c.files.keys()[i], c.files.values()[i]@))
}

/// `bs` are the bundles folding the chronicles `cs` oldest first passes
/// through, from `b0`: each chronicle's files fold `bs[i]` into `fs[i]`
/// with `ds[i]` differences, then the bundle takes the chronicle's version
pub open spec fn chronicles_trace(b0: Bundle, cs: Seq<Chronicle>, bs: Seq<Bundle>, fs: Seq<Bundle>, ds: Seq<nat>) -> bool {
    &&& bs.len() == cs.len() + 1
    &&& fs.len() == cs.len()
    &&& ds.len() == cs.len()
    &&& bs[0] == b0
    &&& forall|i: int|
        0 <= i < cs.len() ==> files_folded(bs[i], cs[i].version, chronicle_files(cs[i]), #[trigger] fs[i], ds[i])
            && bs[i + 1] == (Bundle { version: cs[i].version, ..fs[i] })
}

/// `b` and `d` can come of folding the chronicles `cs`, oldest first, into
/// `b0`: each chronicle's files in order, then the bundle takes its version
pub open spec fn chronicles_folded(b0: Bundle, cs: Seq<Chronicle>, b: Bundle, d: nat) -> bool {
    exists|bs: Seq<Bundle>, fs: Seq<Bundle>, ds: Seq<nat>|
        #[trigger] chronicles_trace(b0, cs, bs, fs, ds) && bs.last() == b && d == nat_sum(ds)
}

/// Folds `dp`, the strand parsed from the include file `key` at `version`,
/// into the bundle: a new file adds its strand and counts as one difference;
/// otherwise each new symbol counts as one
pub fn process_chronicle(bundle: &mut Bundle, version: &Option<Versioning>, key: String, dp: Strand) -> (diffs: u64)
    requires
        strand_len(dp) <= u64::MAX,
    ensures
        chronicle_absorbed(*old(bundle), *version, key@, dp, *final(bundle), diffs as nat),
{
    let ghost b0 = *bundle;
    match bundle.strands.find(key.as_str()) {
        Some(i) => {
            let mut strand = bundle.strands.replace_at(i, Strand::new());
            let ghost d0 = dp;
            let diffs = process(&mut strand, dp, version);
            let ghost r = strand;
            let ghost kv = key@;
            bundle.strands.insert(key, strand);
            proof {
                if bundle_keyed(b0) && strand_keyed(d0) {
                    assert(b0.strands.contains_spec(kv));
                    law_process_keeps_names(b0.strands.get_spec(kv)->0, d0, *version, r);
                    assert forall|k: Seq<char>| #[trigger] bundle.strands.contains_spec(k) implies strand_keyed(
                        bundle.strands.get_spec(k)->0,
                    ) by {
                        if k != kv {
                            assert(b0.strands.contains_spec(k));
                        }
                    }
                }
            }
            diffs
        },
        None => {
            let ghost d0 = dp;
            let mut strand = dp;
            settle_strand(&mut strand, version);
            let ghost r = strand;
            let ghost kv = key@;
            bundle.strands.insert(key, strand);
            proof {
                if bundle_keyed(b0) && strand_keyed(d0) {
                    law_process_keeps_names(d0, d0, *version, r);
                    assert forall|k: Seq<char>| #[trigger] bundle.strands.contains_spec(k) implies strand_keyed(
                        bundle.strands.get_spec(k)->0,
                    ) by {
                        if k != kv {
                            assert(b0.strands.contains_spec(k));
                        }
                    }
                }
            }
            1
        },
    }
}

/// The files of a set of includes that changed at one version, by file stem
pub struct Chronicle {
    /// The version this chronicle represents
    pub version: Option<Versioning>,
    /// Content of each file changed at this version
    pub files: SymbolMap<Vec<u8>>,
}

impl Bundle {
    /// An empty bundle for the includes a manifest describes
    pub fn from_manifest(manifest: Manifest) -> (b: Bundle)
        ensures
            b.meta == manifest.meta,
            b.source == manifest.source,
            b.strands.keys().len() == 0,
            b.version is None,
    {
        Bundle { meta: manifest.meta, source: manifest.source, strands: SymbolMap::new(), version: None }
    }
}

/// Number of symbols of a strand, or `None` past `u64::MAX`
fn strand_size(s: &Strand) -> (r: Option<u64>)
    ensures
        r matches Some(n) ==> n == strand_len(*s),
        r is None ==> strand_len(*s) > u64::MAX,
{
    let total: u128 = s.functions.len() as u128 + s.methodmaps.len() as u128 + s.enumstructs.len() as u128
        + s.constants.len() as u128 + s.defines.len() as u128 + s.enums.len() as u128 + s.typesets.len() as u128
        + s.typedefs.len() as u128;
    if total <= u64::MAX as u128 {
        Some(total as u64)
    } else {
        None
    }
}

/// Folds each chronicle, oldest first, into the bundle, file by file; a file
/// that does not parse is skipped. The bundle ends at the version of the last
/// chronicle. Returns the number of differences found, at most `u64::MAX`.
#[verifier::rlimit(40)]
pub fn iterate_chronicles(bundle: &mut Bundle, chronicles: Vec<Chronicle>) -> (diffs: u64)
    ensures
        chronicles.len() > 0 ==> final(bundle).version == chronicles@.last().version,
        chronicles.len() == 0 ==> final(bundle).version == old(bundle).version,
        final(bundle).meta == old(bundle).meta,
        final(bundle).source == old(bundle).source,
        forall|k: Seq<char>| #[trigger] old(bundle).strands.contains_spec(k) ==> final(bundle).strands.contains_spec(k),
        bundle_keyed(*old(bundle)) ==> bundle_keyed(*final(bundle)),
        exists|total: nat|
            chronicles_folded(*old(bundle), chronicles@, *final(bundle), total) && diffs == (if total <= u64::MAX {
                total
            } else {
                u64::MAX as nat
            }),
{
    let ghost b0 = *bundle;
    let ghost cs = chronicles@;
    let mut rest = chronicles;
    let ghost mut cbs: Seq<Bundle> = seq![b0];
    let ghost mut cfs: Seq<Bundle> = Seq::empty();
    let ghost mut cds: Seq<nat> = Seq::empty();
    proof {
        assert(cs.len() == rest.len());
        assert(cs.take(0) =~= Seq::<Chronicle>::empty());
    }
    let mut diffs: u64 = 0;
    let mut i: usize = 0;
    while rest.len() > 0
        invariant
            i <= cs.len(),
            cs.len() <= usize::MAX,
            rest@ == cs.subrange(i as int, cs.len() as int),
            i > 0 ==> bundle.version == cs[i - 1].version,
            i == 0 ==> bundle.version == b0.version,
            bundle.meta == b0.meta,
            bundle.source == b0.source,
            forall|k: Seq<char>| #[trigger] b0.strands.contains_spec(k) ==> bundle.strands.contains_spec(k),
            bundle_keyed(b0) ==> bundle_keyed(*bundle),
            chronicles_trace(b0, cs.take(i as int), cbs, cfs, cds),
            cbs.last() == *bundle,
            diffs == (if nat_sum(cds) <= u64::MAX { nat_sum(cds) } else { u64::MAX as nat }),
        decreases rest.len(),
    {
        proof {
            assert(rest@.len() == cs.len() - i);
        }
        let chronicle = rest.remove(0);
        proof {
            assert(chronicle == cs[i as int]);
        }
        let ghost bm = *bundle;
        let ghost dm = nat_sum(cds);
        let ghost fs = chronicle_files(cs[i as int]);
        let Chronicle { version, files } = chronicle;
        let mut entries = files.into_entries();
        let ghost mut m: int = 0;
        let ghost mut bs: Seq<Bundle> = seq![bm];
        let ghost mut ds: Seq<nat> = Seq::empty();
        let ghost mut ps: Seq<Option<Result<Strand, AlternatorError>>> = Seq::empty();
        proof {
            assert(fs.take(0) =~= Seq::<(Seq<char>, Seq<u8>)>::empty());
            assert forall|q: int| 0 <= q < entries@.len() implies (#[trigger] entries@[q].0@, entries@[q].1@) == fs[m + q] by {
                assert(entries@.map_values(|e: (String, Vec<u8>)| e.0@)[q] == entries@[q].0@);
                assert(entries@.map_values(|e: (String, Vec<u8>)| e.1)[q] == entries@[q].1);
            }
        }
        while entries.len() > 0
            invariant
                i < cs.len(),
                version == cs[i as int].version,
                fs == chronicle_files(cs[i as int]),
                bundle.meta == b0.meta,
                bundle.source == b0.source,
                bundle.version == bm.version,
                forall|k: Seq<char>| #[trigger] b0.strands.contains_spec(k) ==> bundle.strands.contains_spec(k),
                bundle_keyed(b0) ==> bundle_keyed(*bundle),
                0 <= m <= fs.len(),
                entries@.len() == fs.len() - m,
                forall|q: int| 0 <= q < entries@.len() ==> (#[trigger] entries@[q].0@, entries@[q].1@) == fs[m + q],
                files_trace(bm, version, fs.take(m), bs, ds, ps),
                bs.last() == *bundle,
                diffs == (if dm + nat_sum(ds) <= u64::MAX { dm + nat_sum(ds) } else { u64::MAX as nat }),
            decreases entries.len(),
        {
            proof {
                assert((entries@[0].0@, entries@[0].1@) == fs[m]);
            }
            let (file_name, content) = entries.remove(0);
            let ghost before = *bundle;
            let ghost key = file_name@;
            assert(key == fs[m].0 && content@ == fs[m].1);
            let parsed = crate::source::parse_bytes_checked(content.as_slice());
            let ghost pg = parsed;
            let mut d: u64 = 0;
            if let Some(Ok(strand)) = parsed {
                if let Some(_) = strand_size(&strand) {
                    d = process_chronicle(bundle, &version, file_name, strand);
                    proof {
                        assert forall|k: Seq<char>| #[trigger] b0.strands.contains_spec(k) implies bundle.strands.contains_spec(k) by {
                            assert(before.strands.contains_spec(k));
                        }
                    }
                }
            }
            proof {
                assert(file_folded(before, version, key, pg, *bundle, d as nat));
                let ghost bs2 = bs.push(*bundle);
                let ghost ds2 = ds.push(d as nat);
                let ghost ps2 = ps.push(pg);
                assert(ds2.drop_last() =~= ds);
                assert forall|q: int| 0 <= q < m + 1 implies checked_outcome(fs.take(m + 1)[q].1, #[trigger] ps2[q])
                    && file_folded(bs2[q], version, fs.take(m + 1)[q].0, ps2[q], bs2[q + 1], ds2[q]) by {
                    if q < m {
                        assert(ps2[q] == ps[q]);
                        assert(fs.take(m)[q] == fs.take(m + 1)[q]);
                    }
                }
                assert(files_trace(bm, version, fs.take(m + 1), bs2, ds2, ps2));
                bs = bs2;
                ds = ds2;
                ps = ps2;
                m = m + 1;
            }
            diffs = if d <= u64::MAX - diffs { diffs + d } else { u64::MAX };
        }
        let ghost bf = *bundle;
        bundle.version = version;
        proof {
            assert(fs.take(m) =~= fs);
            assert(files_folded(bm, version, fs, bf, nat_sum(ds)));
            let ghost cbs2 = cbs.push(*bundle);
            let ghost cfs2 = cfs.push(bf);
            let ghost cds2 = cds.push(nat_sum(ds));
            assert(cds2.drop_last() =~= cds);
            assert forall|q: int| 0 <= q < i + 1 implies files_folded(cbs2[q], cs.take(i + 1)[q].version, chronicle_files(cs.take(i + 1)[q]), #[trigger] cfs2[q], cds2[q])
                && cbs2[q + 1] == (Bundle { version: cs.take(i + 1)[q].version, ..cfs2[q] }) by {
                if q < i {
                    assert(cfs2[q] == cfs[q]);
                    assert(cs.take(i as int)[q] == cs.take(i + 1)[q]);
                }
            }
            assert(chronicles_trace(b0, cs.take(i + 1), cbs2, cfs2, cds2));
            cbs = cbs2;
            cfs = cfs2;
            cds = cds2;
        }
        i = i + 1;
    }
    proof {
        assert(cs.take(i as int) =~= cs);
        assert(chronicles_folded(b0, cs, *bundle, nat_sum(cds)));
    }
    diffs
}

/// Folding a newer version into a map of symbols loses no name and adds just
/// the newer names: afterwards the map has a name exactly when the older or
/// the newer version had it, and folding the same newer version in again finds
/// nothing new
pub proof fn law_merged_names<T: Chronicled>(
    cur: SymbolMap<T>,
    dp: SymbolMap<T>,
    version: Option<Versioning>,
    r: SymbolMap<T>,
)
    requires
        merges(cur, dp, version, r),
    ensures
        forall|k: Seq<char>| #[trigger] r.contains_spec(k) == (cur.contains_spec(k) || dp.contains_spec(k)),
        fresh_names(r, dp.keys()) == Seq::<Seq<char>>::empty(),
{
    assert forall|k: Seq<char>| #[trigger] r.contains_spec(k) == (cur.contains_spec(k) || dp.contains_spec(k)) by {
        if dp.contains_spec(k) {
            assert(r.get_spec(k) is Some);
        } else {
            assert(r.get_spec(k) == cur.get_spec(k));
        }
    }
    assert forall|i: int| 0 <= i < dp.keys().len() implies r.contains_spec(#[trigger] dp.keys()[i]) by {
        lemma_contains_keys(dp, dp.keys()[i]);
        assert(r.get_spec(dp.keys()[i]) is Some);
    }
    lemma_fresh_names_none(r, dp.keys());
}

/// Once a newer version of a strand is folded in, every symbol of it is in the
/// strand, none that was there is lost, and folding the same version in again
/// counts no difference
pub proof fn law_process_settles(cur: Strand, dp: Strand, version: Option<Versioning>, r: Strand)
    requires
        strand_absorbs(cur, dp, version, r),
    ensures
        strand_fresh(r, dp) == 0,
        forall|k: Seq<char>| #[trigger] r.functions.contains_spec(k) == (cur.functions.contains_spec(k) || dp.functions.contains_spec(k)),
        forall|k: Seq<char>| #[trigger] r.methodmaps.contains_spec(k) == (cur.methodmaps.contains_spec(k) || dp.methodmaps.contains_spec(k)),
        forall|k: Seq<char>| #[trigger] r.enumstructs.contains_spec(k) == (cur.enumstructs.contains_spec(k) || dp.enumstructs.contains_spec(k)),
        forall|k: Seq<char>| #[trigger] r.constants.contains_spec(k) == (cur.constants.contains_spec(k) || dp.constants.contains_spec(k)),
        forall|k: Seq<char>| #[trigger] r.defines.contains_spec(k) == (cur.defines.contains_spec(k) || dp.defines.contains_spec(k)),
        forall|k: Seq<char>| #[trigger] r.enums.contains_spec(k) == (cur.enums.contains_spec(k) || dp.enums.contains_spec(k)),
        forall|k: Seq<char>| #[trigger] r.typesets.contains_spec(k) == (cur.typesets.contains_spec(k) || dp.typesets.contains_spec(k)),
        forall|k: Seq<char>| #[trigger] r.typedefs.contains_spec(k) == (cur.typedefs.contains_spec(k) || dp.typedefs.contains_spec(k)),
{
    law_merged_names(cur.functions, dp.functions, version, r.functions);
    law_merged_names(cur.methodmaps, dp.methodmaps, version, r.methodmaps);
    law_merged_names(cur.enumstructs, dp.enumstructs, version, r.enumstructs);
    law_merged_names(cur.constants, dp.constants, version, r.constants);
    law_merged_names(cur.defines, dp.defines, version, r.defines);
    law_merged_names(cur.enums, dp.enums, version, r.enums);
    law_merged_names(cur.typesets, dp.typesets, version, r.typesets);
    law_merged_names(cur.typedefs, dp.typedefs, version, r.typedefs);
}

/// Folding a newer version of a strand into one keeps every symbol, and
/// every member of one, stored under its own name
pub proof fn law_process_keeps_names(cur: Strand, dp: Strand, version: Option<Versioning>, r: Strand)
    requires
        strand_absorbs(cur, dp, version, r),
        strand_keyed(cur),
        strand_keyed(dp),
    ensures
        strand_keyed(r),
{
    lemma_merges_keyed(cur.functions, dp.functions, version, r.functions);
    lemma_merges_keyed(cur.methodmaps, dp.methodmaps, version, r.methodmaps);
    lemma_merges_keyed(cur.enumstructs, dp.enumstructs, version, r.enumstructs);
    lemma_merges_keyed(cur.constants, dp.constants, version, r.constants);
    lemma_merges_keyed(cur.defines, dp.defines, version, r.defines);
    lemma_merges_keyed(cur.enums, dp.enums, version, r.enums);
    lemma_merges_keyed(cur.typesets, dp.typesets, version, r.typesets);
    lemma_merges_keyed(cur.typedefs, dp.typedefs, version, r.typedefs);
}

/// The metadata rules: without a version nothing changes; metadata that
/// exists keeps its creation version, and a change stamps its last update;
/// an unchanged symbol without metadata is stamped as created and last
/// updated at the version; a changed symbol without metadata stays without
pub proof fn law_metadata(m: Option<Metadata>, diff: bool, version: Option<Versioning>)
    ensures
        version is None ==> touched(m, diff, version) == m,
        m matches Some(a) ==> touched(m, diff, version) matches Some(b) && b.created == a.created,
        (m is Some && diff && version is Some) ==> touched(m, diff, version)->0.last_updated == version,
        (m is Some && !diff) ==> touched(m, diff, version) == m,
        (m is None && !diff && version is Some) ==> touched(m, diff, version) == Some(
            Metadata { created: version, last_updated: version },
        ),
        (m is None && diff) ==> touched(m, diff, version) is None,
{
}

} // verus!
