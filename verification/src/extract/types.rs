//! How parameter, field and return types are written out.

use vstd::prelude::*;

verus! {

/// The pieces concatenated in order
pub open spec fn concat(ds: Seq<Seq<char>>) -> Seq<char>
    decreases ds.len(),
{
    if ds.len() == 0 { Seq::empty() } else { concat(ds.drop_last()) + ds.last() }
}

pub open spec fn const_prefix(is_const: bool) -> Seq<char> {
    if is_const { seq!['c', 'o', 'n', 's', 't', ' '] } else { Seq::empty() }
}

pub open spec fn amp(by_ref: bool) -> Seq<char> {
    if by_ref { seq!['&'] } else { Seq::empty() }
}

pub open spec fn texts(ds: Seq<Vec<char>>) -> Seq<Seq<char>> {
    ds.map_values(|d: Vec<char>| d@)
}

/// Structured type of a parameter, field or return value
pub struct TypeParts {
    pub is_const: bool,
    pub base: Vec<char>,
    pub prefix_dims: Vec<Vec<char>>,
    pub postfix_dims: Vec<Vec<char>>,
    pub by_ref: bool,
}

impl TypeParts {
    /// The dimensions in order, before and after the name
    pub open spec fn dims_spec(&self) -> Seq<char> {
        concat(texts(self.prefix_dims@) + texts(self.postfix_dims@))
    }

    /// `const char[]`, `int&`, `float[3]`
    pub open spec fn type_spec(&self) -> Seq<char> {
        const_prefix(self.is_const) + self.base@ + self.dims_spec() + amp(self.by_ref)
    }

    /// `const char[] name`, `float vec[3]`, `int& value`
    pub open spec fn decl_spec(&self, name: Seq<char>) -> Seq<char> {
        const_prefix(self.is_const) + self.base@ + concat(texts(self.prefix_dims@)) + amp(self.by_ref) + seq![' ']
            + name + concat(texts(self.postfix_dims@))
    }

    /// No qualifier, base `int`, no dimensions
    pub fn new() -> (p: TypeParts)
        ensures
            !p.is_const && !p.by_ref,
            p.base@ == seq!['i', 'n', 't'],
            p.prefix_dims@.len() == 0 && p.postfix_dims@.len() == 0,
    {
        let base = vec!['i', 'n', 't'];
        assert(base@ == seq!['i', 'n', 't']);
        TypeParts { is_const: false, base: base, prefix_dims: Vec::new(), postfix_dims: Vec::new(), by_ref: false }
    }

    pub fn dims(&self) -> (r: Vec<char>)
        ensures
            r@ == self.dims_spec(),
    {
        let mut r: Vec<char> = Vec::new();
        push_dims(&mut r, &self.prefix_dims);
        push_dims(&mut r, &self.postfix_dims);
        proof {
            lemma_concat_append(texts(self.prefix_dims@), texts(self.postfix_dims@));
        }
        r
    }

    pub fn type_string(&self) -> (r: Vec<char>)
        ensures
            r@ == self.type_spec(),
    {
        let mut r: Vec<char> = Vec::new();
        if self.is_const {
            push_all(&mut r, &['c', 'o', 'n', 's', 't', ' ']);
        }
        push_all(&mut r, self.base.as_slice());
        let d = self.dims();
        push_all(&mut r, d.as_slice());
        if self.by_ref {
            r.push('&');
        }
        assert(r@ =~= self.type_spec());
        r
    }

    pub fn decl_string(&self, name: &Vec<char>) -> (r: Vec<char>)
        ensures
            r@ == self.decl_spec(name@),
    {
        let mut r: Vec<char> = Vec::new();
        if self.is_const {
            push_all(&mut r, &['c', 'o', 'n', 's', 't', ' ']);
        }
        push_all(&mut r, self.base.as_slice());
        push_dims(&mut r, &self.prefix_dims);
        if self.by_ref {
            r.push('&');
        }
        r.push(' ');
        push_all(&mut r, name.as_slice());
        push_dims(&mut r, &self.postfix_dims);
        assert(r@ =~= self.decl_spec(name@));
        r
    }
}

pub proof fn lemma_concat_append(a: Seq<Seq<char>>, b: Seq<Seq<char>>)
    ensures
        concat(a + b) == concat(a) + concat(b),
    decreases b.len(),
{
    if b.len() == 0 {
        assert(a + b =~= a);
        assert(concat(b) =~= Seq::<char>::empty());
        assert(concat(a) + concat(b) =~= concat(a));
    } else {
        assert((a + b).drop_last() =~= a + b.drop_last());
        lemma_concat_append(a, b.drop_last());
        assert(concat(a) + concat(b) =~= concat(a) + concat(b.drop_last()) + b.last());
    }
}

pub fn push_all(out: &mut Vec<char>, w: &[char])
    ensures
        final(out)@ == old(out)@ + w@,
{
    let mut i: usize = 0;
    while i < w.len()
        invariant
            i <= w.len(),
            out@ == old(out)@ + w@.subrange(0, i as int),
        decreases w.len() - i,
    {
        out.push(w[i]);
        i = i + 1;
        assert(out@ =~= old(out)@ + w@.subrange(0, i as int));
    }
    assert(w@.subrange(0, w@.len() as int) =~= w@);
}

pub fn push_dims(out: &mut Vec<char>, ds: &Vec<Vec<char>>)
    ensures
        final(out)@ == old(out)@ + concat(texts(ds@)),
{
    let mut i: usize = 0;
    while i < ds.len()
        invariant
            i <= ds.len(),
            out@ == old(out)@ + concat(texts(ds@).subrange(0, i as int)),
        decreases ds.len() - i,
    {
        let ghost before = out@;
        push_all(out, ds[i].as_slice());
        i = i + 1;
        assert(texts(ds@).subrange(0, i as int).drop_last() =~= texts(ds@).subrange(0, i - 1));
        assert(texts(ds@).subrange(0, i as int).last() == ds@[i - 1]@);
        assert(out@ =~= old(out)@ + concat(texts(ds@).subrange(0, i as int)));
    }
    assert(texts(ds@).subrange(0, ds@.len() as int) =~= texts(ds@));
}

} // verus!
