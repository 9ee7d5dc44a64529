//! Filling in the documentation of an include file's symbols: each symbol
//! whose comment was located but not read gets it parsed from the include's
//! text, and each function type gets its signature parsed.

use vstd::prelude::*;
use vstd::utf8::{encode_utf8, decode_utf8, valid_utf8};
use crate::extract::docs::{doc_comment_of, parse_doc_comment};
use crate::mono::{
    accepted_signature, mono_arguments_view, mono_signature, parse_type_signature, Constant, EnumStruct,
    Enumeration, Entry, Field, Function, IncludeFile, MethodMap, Property, Type, TypeDefinition, TypeSet,
};
use crate::schema::{tags_view, Declaration, Documentation};
use crate::text::string_from_bytes;

verus! {

/// Whether a documentation's comment is left as it is: it was read already,
/// or one of its locations is unset
pub open spec fn section_skipped(doc: Documentation) -> bool {
    doc.docs is Some || doc.doc_start.0 == 0 || doc.doc_end.0 == 0
}

/// The byte range of a documentation's comment, its locations read as `usize`
pub open spec fn section_range(doc: Documentation) -> (int, int) {
    (doc.doc_start.0 as usize as int, doc.doc_end.0 as usize as int)
}

/// Whether the comment of `doc` can be read from `section`: it is skipped,
/// or its range lies within the section's bytes and holds whole characters
pub open spec fn section_ok(doc: Documentation, section: Seq<char>) -> bool {
    section_skipped(doc) || {
        let bytes = encode_utf8(section);
        let (s, e) = section_range(doc);
        &&& 0 <= s <= e <= bytes.len()
        &&& valid_utf8(bytes.subrange(s, e))
    }
}

/// The text of `doc`'s comment in `section`
pub open spec fn section_text(doc: Documentation, section: Seq<char>) -> Seq<char> {
    let (s, e) = section_range(doc);
    decode_utf8(encode_utf8(section).subrange(s, e))
}

/// `r` is `doc` once its comment is read from `section`: a skipped one stays
/// as it was; otherwise the comment is the parse of its text
pub open spec fn sectioned(doc: Documentation, section: Seq<char>, r: Documentation) -> bool {
    if section_skipped(doc) {
        r == doc
    } else {
        &&& r.ref_line == doc.ref_line
        &&& r.doc_start == doc.doc_start
        &&& r.doc_end == doc.doc_end
        &&& r.metadata == doc.metadata
        &&& r.docs matches Some(c) && (c.brief@, tags_view(c.tags@)) == doc_comment_of(section_text(doc, section))
    }
}

/// A declaration whose comment is read, its name kept
pub open spec fn declaration_sectioned(d: Declaration, section: Seq<char>, r: Declaration) -> bool {
    r.name == d.name && sectioned(d.documentation, section, r.documentation)
}

/// Reads the comment of `doc` from `section`, the include's text, unless it
/// was read already or is not located
pub fn process_section(doc: &mut Documentation, section: &str)
    requires
        section_ok(*old(doc), section@),
    ensures
        sectioned(*old(doc), section@, *final(doc)),
{
    if doc.docs.is_some() {
        return;
    }
    if doc.doc_start.0 == 0 || doc.doc_end.0 == 0 {
        return;
    }
    let bytes = section.as_bytes();
    let start: usize = doc.doc_start.offset();
    let end: usize = doc.doc_end.offset();
    let snippet = &bytes[start..end];
    proof {
        assert(snippet@ == encode_utf8(section@).subrange(start as int, end as int));
    }
    let text = string_from_bytes(snippet);
    doc.docs = Some(parse_doc_comment(text.as_str()));
}

/// A symbol of an include file whose documentation is read from the include's text
pub trait DocSection: Sized {
    /// Whether every comment of the symbol can be read from `section`
    spec fn docs_ok(&self, section: Seq<char>) -> bool;

    /// `r` is the symbol once its comments are read from `section`
    spec fn processed(&self, section: Seq<char>, r: &Self) -> bool;

    /// Reads the symbol's comments from `section`
    fn process(&mut self, section: &str)
        requires
            old(self).docs_ok(section@),
        ensures
            old(self).processed(section@, &*final(self));
}

/// Reads the comments of each symbol of `v` from `section`
pub fn process_all<T: DocSection>(v: &mut Vec<T>, section: &str)
    requires
        forall|i: int| 0 <= i < old(v)@.len() ==> (#[trigger] old(v)@[i]).docs_ok(section@),
    ensures
        final(v)@.len() == old(v)@.len(),
        forall|i: int| 0 <= i < old(v)@.len() ==> (#[trigger] old(v)@[i]).processed(section@, &final(v)@[i]),
{
    let ghost v0 = v@;
    let mut rest: Vec<T> = Vec::new();
    std::mem::swap(&mut rest, v);
    proof {
        assert(v0.len() == rest.len());
    }
    let mut i: usize = 0;
    while rest.len() > 0
        invariant
            v0.len() <= usize::MAX,
            i <= v0.len(),
            rest@ == v0.subrange(i as int, v0.len() as int),
            v@.len() == i,
            forall|j: int| 0 <= j < v0.len() ==> (#[trigger] v0[j]).docs_ok(section@),
            forall|j: int| 0 <= j < i ==> (#[trigger] v0[j]).processed(section@, &v@[j]),
        decreases rest.len(),
    {
        proof {
            assert(rest@.len() == v0.len() - i);
        }
        let mut x = rest.remove(0);
        proof {
            assert(x == v0[i as int]);
        }
        x.process(section);
        v.push(x);
        i = i + 1;
    }
}

/// Vectors of symbols, each read from `section`
pub open spec fn all_ok<T: DocSection>(v: Seq<T>, section: Seq<char>) -> bool {
    forall|i: int| 0 <= i < v.len() ==> (#[trigger] v[i]).docs_ok(section)
}

pub open spec fn all_processed<T: DocSection>(v: Seq<T>, section: Seq<char>, r: Seq<T>) -> bool {
    r.len() == v.len() && forall|i: int| 0 <= i < v.len() ==> (#[trigger] v[i]).processed(section, &r[i])
}

/// Reads the comment of a function
pub fn process_function(f: &mut Function, section: &str)
    requires
        old(f).docs_ok(section@),
    ensures
        old(f).processed(section@, &*final(f)),
{
    process_section(&mut f.declaration.documentation, section);
}

impl DocSection for Function {
    open spec fn docs_ok(&self, section: Seq<char>) -> bool {
        section_ok(self.declaration.documentation, section)
    }

    open spec fn processed(&self, section: Seq<char>, r: &Self) -> bool {
        &&& declaration_sectioned(self.declaration, section, r.declaration)
        &&& r.kind == self.kind
        &&& r.return_type == self.return_type
        &&& r.arguments == self.arguments
    }

    fn process(&mut self, section: &str) {
        process_function(self, section)
    }
}

/// Reads the comment of a property
pub fn process_property(f: &mut Property, section: &str)
    requires
        old(f).docs_ok(section@),
    ensures
        old(f).processed(section@, &*final(f)),
{
    process_section(&mut f.declaration.documentation, section);
}

impl DocSection for Property {
    open spec fn docs_ok(&self, section: Seq<char>) -> bool {
        section_ok(self.declaration.documentation, section)
    }

    open spec fn processed(&self, section: Seq<char>, r: &Self) -> bool {
        &&& declaration_sectioned(self.declaration, section, r.declaration)
        &&& r.ty == self.ty
        &&& r.getter == self.getter
        &&& r.setter == self.setter
    }

    fn process(&mut self, section: &str) {
        process_property(self, section)
    }
}

/// Reads the comment of a field
pub fn process_field(f: &mut Field, section: &str)
    requires
        old(f).docs_ok(section@),
    ensures
        old(f).processed(section@, &*final(f)),
{
    process_section(&mut f.declaration.documentation, section);
}

impl DocSection for Field {
    open spec fn docs_ok(&self, section: Seq<char>) -> bool {
        section_ok(self.declaration.documentation, section)
    }

    open spec fn processed(&self, section: Seq<char>, r: &Self) -> bool {
        &&& declaration_sectioned(self.declaration, section, r.declaration)
        &&& r.ty == self.ty
    }

    fn process(&mut self, section: &str) {
        process_field(self, section)
    }
}

/// Reads the comment of a constant
pub fn process_constant(f: &mut Constant, section: &str)
    requires
        old(f).docs_ok(section@),
    ensures
        old(f).processed(section@, &*final(f)),
{
    process_section(&mut f.declaration.documentation, section);
}

impl DocSection for Constant {
    open spec fn docs_ok(&self, section: Seq<char>) -> bool {
        section_ok(self.declaration.documentation, section)
    }

    open spec fn processed(&self, section: Seq<char>, r: &Self) -> bool {
        &&& declaration_sectioned(self.declaration, section, r.declaration)
    }

    fn process(&mut self, section: &str) {
        process_constant(self, section)
    }
}

/// Reads the comment of a entry
pub fn process_entry(f: &mut Entry, section: &str)
    requires
        old(f).docs_ok(section@),
    ensures
        old(f).processed(section@, &*final(f)),
{
    process_section(&mut f.declaration.documentation, section);
}

impl DocSection for Entry {
    open spec fn docs_ok(&self, section: Seq<char>) -> bool {
        section_ok(self.declaration.documentation, section)
    }

    open spec fn processed(&self, section: Seq<char>, r: &Self) -> bool {
        &&& declaration_sectioned(self.declaration, section, r.declaration)
        &&& r.value == self.value
    }

    fn process(&mut self, section: &str) {
        process_entry(self, section)
    }
}

/// Reads the comment of a Type and parses its signature
pub fn process_type(t: &mut Type, section: &str)
    requires
        old(t).docs_ok(section@),
    ensures
        old(t).processed(section@, &*final(t)),
{
    process_section(&mut t.documentation, section);
    t.parsed_signature = Some(parse_type_signature(t.ty.as_str()));
}

impl DocSection for Type {
    /// The comment can be read and the signature is one the parser takes
    open spec fn docs_ok(&self, section: Seq<char>) -> bool {
        section_ok(self.documentation, section) && accepted_signature(self.ty@)
    }

    open spec fn processed(&self, section: Seq<char>, r: &Self) -> bool {
        &&& sectioned(self.documentation, section, r.documentation)
        &&& r.ty == self.ty
        &&& r.parsed_signature matches Some(sig) && (sig.return_type@, mono_arguments_view(sig.arguments@))
            == mono_signature(self.ty@)
    }

    fn process(&mut self, section: &str) {
        process_type(self, section)
    }
}

/// Reads the comment of a TypeDefinition and parses its signature
pub fn process_typedef(t: &mut TypeDefinition, section: &str)
    requires
        old(t).docs_ok(section@),
    ensures
        old(t).processed(section@, &*final(t)),
{
    process_section(&mut t.declaration.documentation, section);
    t.parsed_signature = Some(parse_type_signature(t.ty.as_str()));
}

impl DocSection for TypeDefinition {
    /// The comment can be read and the signature is one the parser takes
    open spec fn docs_ok(&self, section: Seq<char>) -> bool {
        section_ok(self.declaration.documentation, section) && accepted_signature(self.ty@)
    }

    open spec fn processed(&self, section: Seq<char>, r: &Self) -> bool {
        &&& declaration_sectioned(self.declaration, section, r.declaration)
        &&& r.ty == self.ty
        &&& r.parsed_signature matches Some(sig) && (sig.return_type@, mono_arguments_view(sig.arguments@))
            == mono_signature(self.ty@)
    }

    fn process(&mut self, section: &str) {
        process_typedef(self, section)
    }
}

/// Reads the comments of a methodmap and of its members
pub fn process_methodmap(m: &mut MethodMap, section: &str)
    requires
        old(m).docs_ok(section@),
    ensures
        old(m).processed(section@, &*final(m)),
{
    process_section(&mut m.declaration.documentation, section);
    process_all(&mut m.methods, section);
    process_all(&mut m.properties, section);
}

impl DocSection for MethodMap {
    open spec fn docs_ok(&self, section: Seq<char>) -> bool {
        section_ok(self.declaration.documentation, section) && all_ok(self.methods@, section) && all_ok(self.properties@, section)
    }

    open spec fn processed(&self, section: Seq<char>, r: &Self) -> bool {
        &&& declaration_sectioned(self.declaration, section, r.declaration)
        &&& all_processed(self.methods@, section, r.methods@)
        &&& all_processed(self.properties@, section, r.properties@)
        &&& r.parent == self.parent
    }

    fn process(&mut self, section: &str) {
        process_methodmap(self, section)
    }
}

/// Reads the comments of a enumstruct and of its members
pub fn process_enumstruct(m: &mut EnumStruct, section: &str)
    requires
        old(m).docs_ok(section@),
    ensures
        old(m).processed(section@, &*final(m)),
{
    process_section(&mut m.declaration.documentation, section);
    process_all(&mut m.methods, section);
    process_all(&mut m.fields, section);
}

impl DocSection for EnumStruct {
    open spec fn docs_ok(&self, section: Seq<char>) -> bool {
        section_ok(self.declaration.documentation, section) && all_ok(self.methods@, section) && all_ok(self.fields@, section)
    }

    open spec fn processed(&self, section: Seq<char>, r: &Self) -> bool {
        &&& declaration_sectioned(self.declaration, section, r.declaration)
        &&& all_processed(self.methods@, section, r.methods@)
        &&& all_processed(self.fields@, section, r.fields@)
    }

    fn process(&mut self, section: &str) {
        process_enumstruct(self, section)
    }
}

/// Reads the comments of a enumeration and of its members
pub fn process_enum(m: &mut Enumeration, section: &str)
    requires
        old(m).docs_ok(section@),
    ensures
        old(m).processed(section@, &*final(m)),
{
    process_section(&mut m.declaration.documentation, section);
    process_all(&mut m.entries, section);
}

impl DocSection for Enumeration {
    open spec fn docs_ok(&self, section: Seq<char>) -> bool {
        section_ok(self.declaration.documentation, section) && all_ok(self.entries@, section)
    }

    open spec fn processed(&self, section: Seq<char>, r: &Self) -> bool {
        &&& declaration_sectioned(self.declaration, section, r.declaration)
        &&& all_processed(self.entries@, section, r.entries@)
    }

    fn process(&mut self, section: &str) {
        process_enum(self, section)
    }
}

/// Reads the comments of a typeset and of its members
pub fn process_typeset(m: &mut TypeSet, section: &str)
    requires
        old(m).docs_ok(section@),
    ensures
        old(m).processed(section@, &*final(m)),
{
    process_section(&mut m.declaration.documentation, section);
    process_all(&mut m.types, section);
}

impl DocSection for TypeSet {
    open spec fn docs_ok(&self, section: Seq<char>) -> bool {
        section_ok(self.declaration.documentation, section) && all_ok(self.types@, section)
    }

    open spec fn processed(&self, section: Seq<char>, r: &Self) -> bool {
        &&& declaration_sectioned(self.declaration, section, r.declaration)
        &&& all_processed(self.types@, section, r.types@)
    }

    fn process(&mut self, section: &str) {
        process_typeset(self, section)
    }
}

/// Whether every comment of an include file can be read from its text and
/// every function type signature parsed
pub open spec fn include_ok(f: IncludeFile, raw: Seq<char>) -> bool {
    &&& all_ok(f.methodmaps@, raw)
    &&& all_ok(f.enumstructs@, raw)
    &&& all_ok(f.functions@, raw)
    &&& all_ok(f.constants@, raw)
    &&& all_ok(f.enums@, raw)
    &&& all_ok(f.typesets@, raw)
    &&& all_ok(f.typedefs@, raw)
}

/// Reads every comment of an include file's symbols from `raw`, its text,
/// and parses the signatures of its function types; defines are left as they are
pub fn process_include_file(file: &mut IncludeFile, raw: &str)
    requires
        include_ok(*old(file), raw@),
    ensures
        all_processed(old(file).methodmaps@, raw@, final(file).methodmaps@),
        all_processed(old(file).enumstructs@, raw@, final(file).enumstructs@),
        all_processed(old(file).functions@, raw@, final(file).functions@),
        all_processed(old(file).constants@, raw@, final(file).constants@),
        all_processed(old(file).enums@, raw@, final(file).enums@),
        all_processed(old(file).typesets@, raw@, final(file).typesets@),
        all_processed(old(file).typedefs@, raw@, final(file).typedefs@),
        final(file).defines == old(file).defines,
{
    process_all(&mut file.methodmaps, raw);
    process_all(&mut file.enumstructs, raw);
    process_all(&mut file.functions, raw);
    process_all(&mut file.constants, raw);
    process_all(&mut file.enums, raw);
    process_all(&mut file.typesets, raw);
    process_all(&mut file.typedefs, raw);
}

} // verus!
