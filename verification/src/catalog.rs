//! The index of bundles: one entry per bundle name, with its meta descriptor
//! and source.

use vstd::prelude::*;
use crate::chronicle::opt_text;
use crate::schema::symbol_map::SymbolMap;
use crate::schema::{Index, Meta, Source};

verus! {

/// Meta descriptors compare field by field
pub open spec fn same_meta(a: Meta, b: Meta) -> bool {
    &&& a.name@ == b.name@
    &&& opt_text(a.description) == opt_text(b.description)
    &&& opt_text(a.author) == opt_text(b.author)
}

/// A list of texts by their characters
pub open spec fn texts(v: Seq<String>) -> Seq<Seq<char>> {
    v.map_values(|s: String| s@)
}

/// Sources compare field by field
pub open spec fn same_source(a: Source, b: Source) -> bool {
    &&& a.source_type == b.source_type
    &&& opt_text(a.repository) == opt_text(b.repository)
    &&& match (a.endpoints, b.endpoints) {
        (Some(x), Some(y)) => texts(x@) == texts(y@),
        (None, None) => true,
        _ => false,
    }
}

fn same_opt(a: &Option<String>, b: &Option<String>) -> (r: bool)
    ensures
        r == (opt_text(*a) == opt_text(*b)),
{
    match (a, b) {
        (Some(x), Some(y)) => *x == *y,
        (None, None) => true,
        _ => false,
    }
}

fn same_texts(a: &Vec<String>, b: &Vec<String>) -> (r: bool)
    ensures
        r == (texts(a@) == texts(b@)),
{
    if a.len() != b.len() {
        assert(texts(a@).len() != texts(b@).len());
        return false;
    }
    let mut i: usize = 0;
    while i < a.len()
        invariant
            i <= a.len(),
            a.len() == b.len(),
            forall|j: int| 0 <= j < i ==> a@[j]@ == b@[j]@,
        decreases a.len() - i,
    {
        if !(a[i] == b[i]) {
            assert(texts(a@)[i as int] != texts(b@)[i as int]);
            return false;
        }
        i = i + 1;
    }
    assert(texts(a@) =~= texts(b@));
    true
}

/// Whether two meta descriptors are equal
pub fn same_meta_exec(a: &Meta, b: &Meta) -> (r: bool)
    ensures
        r == same_meta(*a, *b),
{
    a.name == b.name && same_opt(&a.description, &b.description) && same_opt(&a.author, &b.author)
}

/// Whether two sources are equal
pub fn same_source_exec(a: &Source, b: &Source) -> (r: bool)
    ensures
        r == same_source(*a, *b),
{
    if a.source_type != b.source_type || !same_opt(&a.repository, &b.repository) {
        return false;
    }
    match (&a.endpoints, &b.endpoints) {
        (Some(x), Some(y)) => same_texts(x, y),
        (None, None) => true,
        _ => false,
    }
}

/// Records a bundle in the index under its name: an entry is written when
/// the name is new or its meta descriptor or source changed, and then the
/// index counts one difference (`true`)
pub fn update_index(index: &mut SymbolMap<Index>, meta: Meta, source: Source) -> (changed: bool)
    ensures
        changed == match old(index).get_spec(meta.name@) {
            Some(e) => !(same_meta(e.meta, meta) && same_source(e.source, source)),
            None => true,
        },
        changed ==> final(index).get_spec(meta.name@) == Some(Index { meta: meta, source: source }),
        forall|k: Seq<char>| k != meta.name@ ==> #[trigger] final(index).get_spec(k) == old(index).get_spec(k),
        !changed ==> *final(index) == *old(index),
        old(index).get_spec(meta.name@) matches Some(e) && (opt_text(e.meta.description) != opt_text(meta.description)
            || opt_text(e.meta.author) != opt_text(meta.author) || opt_text(e.source.repository) != opt_text(
            source.repository) || e.source.source_type != source.source_type) ==> changed,
{
    let write = match index.get(meta.name.as_str()) {
        Some(e) => !(same_meta_exec(&e.meta, &meta) && same_source_exec(&e.source, &source)),
        None => true,
    };
    if write {
        let name = meta.name.clone();
        index.insert(name, Index { meta, source });
    }
    write
}

/// Two meta descriptors are the same exactly when their names, their
/// descriptions and their authors are: one that differs in any of them is
/// another
pub proof fn law_meta_fields(a: Meta, b: Meta)
    ensures
        opt_text(a.description) != opt_text(b.description) ==> !same_meta(a, b),
        opt_text(a.author) != opt_text(b.author) ==> !same_meta(a, b),
        a.name@ != b.name@ ==> !same_meta(a, b),
        a.name@ == b.name@ && opt_text(a.description) == opt_text(b.description) && opt_text(a.author) == opt_text(
            b.author) ==> same_meta(a, b),
{
}

} // verus!
