//! Sitemap entries for the symbols of an include file.

use vstd::prelude::*;
use treexml::ElementBuilder;
use crate::mono::{IncludeFile, MethodMap, EnumStruct, SymbolType, symbol_type_name};
use crate::schema::Declaration;
use crate::text::{chars_of, string_from_chars};

verus! {

#[verifier::external_type_specification]
#[verifier::external_body]
pub struct ExElementBuilder(ElementBuilder);

/// An XML element as a tree: its tag name, its text and its children
pub struct XmlTree {
    pub name: Seq<char>,
    pub text: Option<Seq<char>>,
    pub children: Seq<XmlTree>,
}

/// The element an element builder holds, with all its descendants
pub uninterp spec fn element_content(e: ElementBuilder) -> XmlTree;

/// Wraps `ElementBuilder::new`: an element named `name`, with no text and
/// no children (`Element::new` keeps the defaults for both).
#[verifier::external_body]
fn element_new(name: &str) -> (r: ElementBuilder)
    ensures
        element_content(r) == (XmlTree { name: name@, text: None, children: Seq::empty() }),
{
    ElementBuilder::new(name)
}

/// Wraps `ElementBuilder::text`: sets the element's text, keeping its name
/// and children.
#[verifier::external_body]
fn element_text(e: &mut ElementBuilder, text: &str)
    ensures
        element_content(*final(e)) == (XmlTree { text: Some(text@), ..element_content(*old(e)) }),
{
    e.text(text);
}

/// Wraps `ElementBuilder::children`: appends copies of the elements, each
/// with all its descendants, as children in order, keeping the element's
/// name and text.
#[verifier::external_body]
fn element_children(e: &mut ElementBuilder, children: Vec<ElementBuilder>)
    ensures
        element_content(*final(e)) == (XmlTree {
            children: element_content(*old(e)).children + children@.map_values(|c: ElementBuilder| element_content(c)),
            ..element_content(*old(e))
        }),
{
    let mut children = children;
    e.children(children.iter_mut().collect());
}

/// `<kind>.<name>`, the page of a symbol
pub open spec fn decl_name(t: SymbolType, name: Seq<char>) -> Seq<char> {
    symbol_type_name(t) + seq!['.'] + name
}

/// A member page below its parent's
pub open spec fn member(parent: Seq<char>, t: SymbolType, name: Seq<char>) -> Seq<char> {
    parent + seq!['/'] + decl_name(t, name)
}

/// `<base>/<key>/<page>`
pub open spec fn location(base: Seq<char>, key: Seq<char>, page: Seq<char>) -> Seq<char> {
    base + seq!['/'] + key + seq!['/'] + page
}

pub open spec fn strings_view(v: Seq<String>) -> Seq<Seq<char>> {
    v.map_values(|s: String| s@)
}

fn append(out: &mut Vec<char>, w: &[char])
    ensures
        final(out)@ == old(out)@ + w@,
{
    crate::extract::types::push_all(out, w)
}

fn decl_name_chars(t: SymbolType, name: &String) -> (r: Vec<char>)
    ensures
        r@ == decl_name(t, name@),
{
    let mut r = chars_of(t.to_string().as_str());
    r.push('.');
    append(&mut r, chars_of(name.as_str()).as_slice());
    r
}

fn member_chars(parent: &Vec<char>, t: SymbolType, name: &String) -> (r: Vec<char>)
    ensures
        r@ == member(parent@, t, name@),
{
    let mut r = parent.clone();
    assert(r@ =~= parent@);
    r.push('/');
    append(&mut r, decl_name_chars(t, name).as_slice());
    r
}

fn push_page(pages: &mut Vec<Vec<char>>, p: Vec<char>)
    ensures
        pages_view(final(pages)@) == pages_view(old(pages)@).push(p@),
{
    pages.push(p);
    assert(pages_view(pages@) =~= pages_view(old(pages)@).push(p@));
}

pub open spec fn pages_view(v: Seq<Vec<char>>) -> Seq<Seq<char>> {
    v.map_values(|p: Vec<char>| p@)
}

/// Symbols with a declared name
pub trait Named {
    spec fn spec_name(&self) -> Seq<char>;

    fn name(&self) -> (r: &String)
        ensures
            r@ == self.spec_name();
}

impl Named for crate::mono::Function {
    open spec fn spec_name(&self) -> Seq<char> { self.declaration.name@ }
    fn name(&self) -> (r: &String) { &self.declaration.name }
}

impl Named for crate::mono::Property {
    open spec fn spec_name(&self) -> Seq<char> { self.declaration.name@ }
    fn name(&self) -> (r: &String) { &self.declaration.name }
}

impl Named for crate::mono::Field {
    open spec fn spec_name(&self) -> Seq<char> { self.declaration.name@ }
    fn name(&self) -> (r: &String) { &self.declaration.name }
}

impl Named for crate::mono::Constant {
    open spec fn spec_name(&self) -> Seq<char> { self.declaration.name@ }
    fn name(&self) -> (r: &String) { &self.declaration.name }
}

impl Named for crate::mono::Enumeration {
    open spec fn spec_name(&self) -> Seq<char> { self.declaration.name@ }
    fn name(&self) -> (r: &String) { &self.declaration.name }
}

impl Named for crate::mono::TypeSet {
    open spec fn spec_name(&self) -> Seq<char> { self.declaration.name@ }
    fn name(&self) -> (r: &String) { &self.declaration.name }
}

impl Named for crate::mono::TypeDefinition {
    open spec fn spec_name(&self) -> Seq<char> { self.declaration.name@ }
    fn name(&self) -> (r: &String) { &self.declaration.name }
}

/// The pages of `ds` below `parent`, or at the top when `parent` is `None`
pub open spec fn pages_of<T: Named>(parent: Option<Seq<char>>, ds: Seq<T>, t: SymbolType) -> Seq<Seq<char>> {
    ds.map_values(|d: T| match parent {
        Some(p) => member(p, t, d.spec_name()),
        None => decl_name(t, d.spec_name()),
    })
}

fn push_pages<T: Named>(pages: &mut Vec<Vec<char>>, parent: &Option<Vec<char>>, ds: &Vec<T>, t: SymbolType)
    ensures
        pages_view(final(pages)@) == pages_view(old(pages)@) + pages_of(parent_view(*parent), ds@, t),
{
    let mut k: usize = 0;
    while k < ds.len()
        invariant
            k <= ds.len(),
            pages_view(pages@) == pages_view(old(pages)@) + pages_of(parent_view(*parent), ds@.subrange(0, k as int), t),
        decreases ds.len() - k,
    {
        let p = match parent {
            Some(q) => member_chars(q, t, ds[k].name()),
            None => decl_name_chars(t, ds[k].name()),
        };
        push_page(pages, p);
        k = k + 1;
        assert(pages_of(parent_view(*parent), ds@.subrange(0, k as int), t) =~= pages_of(parent_view(*parent),
            ds@.subrange(0, k - 1), t).push(pages_of(parent_view(*parent), ds@, t)[k - 1]));
    }
    assert(ds@.subrange(0, ds@.len() as int) =~= ds@);
}

pub open spec fn parent_view(p: Option<Vec<char>>) -> Option<Seq<char>> {
    match p {
        Some(v) => Some(v@),
        None => None,
    }
}

/// The pages of a methodmap: its own, then its methods and properties
pub open spec fn methodmap_pages(m: MethodMap) -> Seq<Seq<char>> {
    let p = decl_name(SymbolType::MethodMap, m.declaration.name@);
    seq![p] + pages_of(Some(p), m.methods@, SymbolType::Function) + pages_of(Some(p), m.properties@,
        SymbolType::Property)
}

/// The pages of an enum struct, listed like a methodmap's: its own, then
/// its methods, and its fields as properties
pub open spec fn enumstruct_pages(m: EnumStruct) -> Seq<Seq<char>> {
    let p = decl_name(SymbolType::MethodMap, m.declaration.name@);
    seq![p] + pages_of(Some(p), m.methods@, SymbolType::Function) + pages_of(Some(p), m.fields@,
        SymbolType::Property)
}

pub open spec fn methodmaps_pages(ms: Seq<MethodMap>) -> Seq<Seq<char>>
    decreases ms.len(),
{
    if ms.len() == 0 { Seq::empty() } else { methodmaps_pages(ms.drop_last()) + methodmap_pages(ms.last()) }
}

pub open spec fn enumstructs_pages(ms: Seq<EnumStruct>) -> Seq<Seq<char>>
    decreases ms.len(),
{
    if ms.len() == 0 { Seq::empty() } else { enumstructs_pages(ms.drop_last()) + enumstruct_pages(ms.last()) }
}

/// Every page of an include file, relative to the file's own page (the
/// empty one first); defines have no pages
pub open spec fn include_pages(inc: IncludeFile) -> Seq<Seq<char>> {
    seq![Seq::<char>::empty()] + methodmaps_pages(inc.methodmaps@) + enumstructs_pages(inc.enumstructs@)
        + pages_of(None, inc.functions@, SymbolType::Function) + pages_of(None, inc.constants@, SymbolType::Constant)
        + pages_of(None, inc.enums@, SymbolType::Enum) + pages_of(None, inc.typesets@, SymbolType::TypeSet)
        + pages_of(None, inc.typedefs@, SymbolType::TypeDefinition)
}

proof fn lemma_methodmaps_pages_in(ms: Seq<MethodMap>, i: int, k: int)
    requires
        0 <= i < ms.len(),
        0 <= k < methodmap_pages(ms[i]).len(),
    ensures
        methodmaps_pages(ms).contains(methodmap_pages(ms[i])[k]),
    decreases ms.len(),
{
    let before = methodmaps_pages(ms.drop_last());
    if i == ms.len() - 1 {
        assert(methodmaps_pages(ms)[before.len() + k] == methodmap_pages(ms[i])[k]);
    } else {
        assert(ms.drop_last()[i] == ms[i]);
        lemma_methodmaps_pages_in(ms.drop_last(), i, k);
        let j = choose|j: int| 0 <= j < before.len() && before[j] == methodmap_pages(ms[i])[k];
        assert(methodmaps_pages(ms)[j] == before[j]);
    }
}

proof fn lemma_enumstructs_pages_in(ms: Seq<EnumStruct>, i: int, k: int)
    requires
        0 <= i < ms.len(),
        0 <= k < enumstruct_pages(ms[i]).len(),
    ensures
        enumstructs_pages(ms).contains(enumstruct_pages(ms[i])[k]),
    decreases ms.len(),
{
    let before = enumstructs_pages(ms.drop_last());
    if i == ms.len() - 1 {
        assert(enumstructs_pages(ms)[before.len() + k] == enumstruct_pages(ms[i])[k]);
    } else {
        assert(ms.drop_last()[i] == ms[i]);
        lemma_enumstructs_pages_in(ms.drop_last(), i, k);
        let j = choose|j: int| 0 <= j < before.len() && before[j] == enumstruct_pages(ms[i])[k];
        assert(enumstructs_pages(ms)[j] == before[j]);
    }
}

/// The page `methodmap.<map>`
pub open spec fn methodmap_page(name: Seq<char>) -> Seq<char> {
    seq!['m', 'e', 't', 'h', 'o', 'd', 'm', 'a', 'p', '.'] + name
}

/// Every member of a methodmap or enum struct has its own page below its
/// parent's: `methodmap.<parent>/function.<method>` for a method and
/// `methodmap.<parent>/property.<name>` for a property or an enum struct
/// field; its location is the base, the key and that page, joined by `/`
pub proof fn law_member_pages(inc: IncludeFile, base: Seq<char>, key: Seq<char>, i: int, j: int)
    ensures
        0 <= i < inc.methodmaps@.len() && 0 <= j < inc.methodmaps@[i].methods@.len() ==> include_pages(inc).contains(
            methodmap_page(inc.methodmaps@[i].declaration.name@) + seq!['/', 'f', 'u', 'n', 'c', 't', 'i', 'o', 'n', '.']
                + inc.methodmaps@[i].methods@[j].declaration.name@,
        ),
        0 <= i < inc.methodmaps@.len() && 0 <= j < inc.methodmaps@[i].properties@.len() ==> include_pages(inc).contains(
            methodmap_page(inc.methodmaps@[i].declaration.name@) + seq!['/', 'p', 'r', 'o', 'p', 'e', 'r', 't', 'y', '.']
                + inc.methodmaps@[i].properties@[j].declaration.name@,
        ),
        0 <= i < inc.enumstructs@.len() && 0 <= j < inc.enumstructs@[i].methods@.len() ==> include_pages(inc).contains(
            methodmap_page(inc.enumstructs@[i].declaration.name@) + seq!['/', 'f', 'u', 'n', 'c', 't', 'i', 'o', 'n', '.']
                + inc.enumstructs@[i].methods@[j].declaration.name@,
        ),
        0 <= i < inc.enumstructs@.len() && 0 <= j < inc.enumstructs@[i].fields@.len() ==> include_pages(inc).contains(
            methodmap_page(inc.enumstructs@[i].declaration.name@) + seq!['/', 'p', 'r', 'o', 'p', 'e', 'r', 't', 'y', '.']
                + inc.enumstructs@[i].fields@[j].declaration.name@,
        ),
        forall|p: Seq<char>| #[trigger] location(base, key, p) == base + seq!['/'] + key + seq!['/'] + p,
{
    let pages = include_pages(inc);
    let head = seq![Seq::<char>::empty()];
    let mp = methodmaps_pages(inc.methodmaps@);
    let ep = enumstructs_pages(inc.enumstructs@);
    if 0 <= i < inc.methodmaps@.len() {
        let m = inc.methodmaps@[i];
        let p = decl_name(SymbolType::MethodMap, m.declaration.name@);
        if 0 <= j < m.methods@.len() {
            let k = 1 + j;
            assert(methodmap_pages(m)[k] == member(p, SymbolType::Function, m.methods@[j].declaration.name@));
            lemma_methodmaps_pages_in(inc.methodmaps@, i, k);
            let t = choose|t: int| 0 <= t < mp.len() && mp[t] == methodmap_pages(m)[k];
            assert(pages[1 + t] == mp[t]);
            assert(methodmap_pages(m)[k] =~= methodmap_page(m.declaration.name@) + seq!['/', 'f', 'u', 'n', 'c', 't',
                'i', 'o', 'n', '.'] + m.methods@[j].declaration.name@);
        }
        if 0 <= j < m.properties@.len() {
            let k = 1 + m.methods@.len() + j;
            assert(methodmap_pages(m)[k] == member(p, SymbolType::Property, m.properties@[j].declaration.name@));
            lemma_methodmaps_pages_in(inc.methodmaps@, i, k);
            let t = choose|t: int| 0 <= t < mp.len() && mp[t] == methodmap_pages(m)[k];
            assert(pages[1 + t] == mp[t]);
            assert(methodmap_pages(m)[k] =~= methodmap_page(m.declaration.name@) + seq!['/', 'p', 'r', 'o', 'p', 'e', 'r',
                't', 'y', '.'] + m.properties@[j].declaration.name@);
        }
    }
    if 0 <= i < inc.enumstructs@.len() {
        let m = inc.enumstructs@[i];
        let p = decl_name(SymbolType::MethodMap, m.declaration.name@);
        if 0 <= j < m.methods@.len() {
            let k = 1 + j;
            assert(enumstruct_pages(m)[k] == member(p, SymbolType::Function, m.methods@[j].declaration.name@));
            lemma_enumstructs_pages_in(inc.enumstructs@, i, k);
            let t = choose|t: int| 0 <= t < ep.len() && ep[t] == enumstruct_pages(m)[k];
            assert(pages[1 + mp.len() + t] == ep[t]);
            assert(enumstruct_pages(m)[k] =~= methodmap_page(m.declaration.name@) + seq!['/', 'f', 'u', 'n', 'c', 't',
                'i', 'o', 'n', '.'] + m.methods@[j].declaration.name@);
        }
        if 0 <= j < m.fields@.len() {
            let k = 1 + m.methods@.len() + j;
            assert(enumstruct_pages(m)[k] == member(p, SymbolType::Property, m.fields@[j].declaration.name@));
            lemma_enumstructs_pages_in(inc.enumstructs@, i, k);
            let t = choose|t: int| 0 <= t < ep.len() && ep[t] == enumstruct_pages(m)[k];
            assert(pages[1 + mp.len() + t] == ep[t]);
            assert(enumstruct_pages(m)[k] =~= methodmap_page(m.declaration.name@) + seq!['/', 'p', 'r', 'o', 'p', 'e', 'r',
                't', 'y', '.'] + m.fields@[j].declaration.name@);
        }
    }
}

fn pages(file: &IncludeFile) -> (r: Vec<Vec<char>>)
    ensures
        pages_view(r@) == include_pages(*file),
{
    let mut r: Vec<Vec<char>> = Vec::new();
    push_page(&mut r, Vec::new());
    assert(pages_view(r@) =~= seq![Seq::<char>::empty()]);
    let mut k: usize = 0;
    while k < file.methodmaps.len()
        invariant
            k <= file.methodmaps.len(),
            pages_view(r@) == seq![Seq::<char>::empty()] + methodmaps_pages(file.methodmaps@.subrange(0, k as int)),
        decreases file.methodmaps.len() - k,
    {
        let m = &file.methodmaps[k];
        let p = decl_name_chars(SymbolType::MethodMap, &m.declaration.name);
        let ghost before = pages_view(r@);
        push_page(&mut r, p.clone());
        push_pages(&mut r, &Some(p.clone()), &m.methods, SymbolType::Function);
        push_pages(&mut r, &Some(p), &m.properties, SymbolType::Property);
        assert(pages_view(r@) =~= before + methodmap_pages(*m));
        k = k + 1;
        assert(file.methodmaps@.subrange(0, k as int).drop_last() =~= file.methodmaps@.subrange(0, k - 1));
    }
    assert(file.methodmaps@.subrange(0, file.methodmaps@.len() as int) =~= file.methodmaps@);
    let ghost after_mm = pages_view(r@);
    let mut k: usize = 0;
    while k < file.enumstructs.len()
        invariant
            k <= file.enumstructs.len(),
            pages_view(r@) == after_mm + enumstructs_pages(file.enumstructs@.subrange(0, k as int)),
        decreases file.enumstructs.len() - k,
    {
        let m = &file.enumstructs[k];
        let p = decl_name_chars(SymbolType::MethodMap, &m.declaration.name);
        let ghost before = pages_view(r@);
        push_page(&mut r, p.clone());
        push_pages(&mut r, &Some(p.clone()), &m.methods, SymbolType::Function);
        push_pages(&mut r, &Some(p), &m.fields, SymbolType::Property);
        assert(pages_view(r@) =~= before + enumstruct_pages(*m));
        k = k + 1;
        assert(file.enumstructs@.subrange(0, k as int).drop_last() =~= file.enumstructs@.subrange(0, k - 1));
    }
    assert(file.enumstructs@.subrange(0, file.enumstructs@.len() as int) =~= file.enumstructs@);
    push_pages(&mut r, &None, &file.functions, SymbolType::Function);
    push_pages(&mut r, &None, &file.constants, SymbolType::Constant);
    push_pages(&mut r, &None, &file.enums, SymbolType::Enum);
    push_pages(&mut r, &None, &file.typesets, SymbolType::TypeSet);
    push_pages(&mut r, &None, &file.typedefs, SymbolType::TypeDefinition);
    r
}

/// The location of every page of an include file, in sitemap order
pub fn include_locations(key: &String, file: &IncludeFile, base_url: &str) -> (r: Vec<String>)
    ensures
        strings_view(r@) == include_pages(*file).map_values(|p: Seq<char>| location(base_url@, key@, p)),
{
    let ps = pages(file);
    let base = chars_of(base_url);
    let k_chars = chars_of(key.as_str());
    let mut r: Vec<String> = Vec::new();
    let mut i: usize = 0;
    while i < ps.len()
        invariant
            i <= ps.len(),
            base@ == base_url@,
            k_chars@ == key@,
            strings_view(r@) == pages_view(ps@).subrange(0, i as int).map_values(|p: Seq<char>| location(base_url@,
                key@, p)),
        decreases ps.len() - i,
    {
        let mut l = base.clone();
        assert(l@ =~= base@);
        l.push('/');
        append(&mut l, k_chars.as_slice());
        l.push('/');
        append(&mut l, ps[i].as_slice());
        assert(l@ =~= location(base_url@, key@, ps@[i as int]@));
        assert(pages_view(ps@)[i as int] == ps@[i as int]@);
        let ghost before = r@;
        r.push(string_from_chars(l.as_slice()));
        i = i + 1;
        assert(strings_view(r@) =~= strings_view(before).push(l@));
        assert(pages_view(ps@).subrange(0, i as int).map_values(|p: Seq<char>| location(base_url@, key@, p))
            =~= pages_view(ps@).subrange(0, i - 1).map_values(|p: Seq<char>| location(base_url@, key@, p)).push(
            location(base_url@, key@, pages_view(ps@)[i - 1])));
    }
    assert(pages_view(ps@).subrange(0, ps@.len() as int) =~= pages_view(ps@));
    r
}

/// A `url` element: no text, a `loc` child holding the location and a
/// `changefreq` child holding `monthly`, neither with children of its own
pub open spec fn url_entry(loc: Seq<char>) -> XmlTree {
    XmlTree {
        name: seq!['u', 'r', 'l'],
        text: None,
        children: seq![
            XmlTree { name: seq!['l', 'o', 'c'], text: Some(loc), children: Seq::empty() },
            XmlTree {
                name: seq!['c', 'h', 'a', 'n', 'g', 'e', 'f', 'r', 'e', 'q'],
                text: Some(seq!['m', 'o', 'n', 't', 'h', 'l', 'y']),
                children: Seq::empty(),
            },
        ],
    }
}

/// The `url` elements of an include file's sitemap: each page's location,
/// changed monthly
pub fn build_include_tree(key: String, file: IncludeFile, base_url: &str) -> (r: Vec<ElementBuilder>)
    ensures
        r@.len() == include_pages(file).len(),
        forall|i: int|
            0 <= i < r@.len() ==> #[trigger] element_content(r@[i]) == url_entry(
                location(base_url@, key@, include_pages(file)[i]),
            ),
{
    let locations = include_locations(&key, &file, base_url);
    let url = "url";
    let loc_tag = "loc";
    let freq_tag = "changefreq";
    let monthly = "monthly";
    proof {
        reveal_strlit("url");
        reveal_strlit("loc");
        reveal_strlit("changefreq");
        reveal_strlit("monthly");
    }
    let mut children: Vec<ElementBuilder> = Vec::new();
    let mut i: usize = 0;
    while i < locations.len()
        invariant
            i <= locations.len(),
            children@.len() == i,
            url@ == seq!['u', 'r', 'l'],
            loc_tag@ == seq!['l', 'o', 'c'],
            freq_tag@ == seq!['c', 'h', 'a', 'n', 'g', 'e', 'f', 'r', 'e', 'q'],
            monthly@ == seq!['m', 'o', 'n', 't', 'h', 'l', 'y'],
            forall|j: int| 0 <= j < i ==> #[trigger] element_content(children@[j]) == url_entry(locations@[j]@),
        decreases locations.len() - i,
    {
        let mut element = element_new(url);
        let mut loc = element_new(loc_tag);
        element_text(&mut loc, locations[i].as_str());
        let mut freq = element_new(freq_tag);
        element_text(&mut freq, monthly);
        let pair = vec![loc, freq];
        element_children(&mut element, pair);
        assert(element_content(element).children =~= url_entry(locations@[i as int]@).children);
        assert(element_content(element) == url_entry(locations@[i as int]@));
        children.push(element);
        i = i + 1;
    }
    assert forall|j: int| 0 <= j < children@.len() implies #[trigger] element_content(children@[j]) == url_entry(
        location(base_url@, key@, include_pages(file)[j]),
    ) by {
        assert(strings_view(locations@).len() == locations@.len());
        assert(j < include_pages(file).len());
        assert(strings_view(locations@)[j] == locations@[j]@);
        assert(include_pages(file).map_values(|p: Seq<char>| location(base_url@, key@, p))[j] == location(
            base_url@,
            key@,
            include_pages(file)[j],
        ));
        assert(element_content(children@[j]) == url_entry(locations@[j]@));
    }
    assert(strings_view(locations@).len() == locations@.len());
    children
}

} // verus!
