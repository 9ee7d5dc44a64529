//! Name keyed collections of symbols.

use vstd::prelude::*;
use crate::text::{chars_of};
use crate::chronicle::{Chronicled, merges, fresh_names, base_of, lemma_fresh_names_none};
use crate::schema::Versioning;

verus! {

/// Symbols keyed by name, each name at most once, in insertion order
#[derive(Debug)]
pub struct SymbolMap<T> {
    entries: Vec<(String, T)>,
}

/// Position of `key` among the first `k` keys
pub open spec fn key_index<T>(es: Seq<(String, T)>, key: Seq<char>, k: int) -> Option<int>
    decreases k,
{
    if k <= 0 || k > es.len() {
        None
    } else if es[k - 1].0@ == key {
        Some(k - 1)
    } else {
        key_index(es, key, k - 1)
    }
}

pub proof fn lemma_key_index<T>(es: Seq<(String, T)>, key: Seq<char>, k: int)
    requires
        k <= es.len(),
    ensures
        key_index(es, key, k) matches Some(i) ==> 0 <= i < k && i < es.len() && es[i].0@ == key,
        key_index(es, key, k) is None ==> forall|j: int| 0 <= j < k && j < es.len() ==> es[j].0@ != key,
    decreases k,
{
    if 0 < k {
        lemma_key_index(es, key, k - 1);
    }
}

impl<T> SymbolMap<T> {
    #[verifier::type_invariant]
    closed spec fn unique(self) -> bool {
        forall|i: int, j: int| 0 <= i < j < self.entries@.len() ==> self.entries@[i].0@ != self.entries@[j].0@
    }

    /// The names, in insertion order
    pub closed spec fn keys(&self) -> Seq<Seq<char>> {
        self.entries@.map_values(|e: (String, T)| e.0@)
    }

    /// The symbols, in insertion order
    pub closed spec fn values(&self) -> Seq<T> {
        self.entries@.map_values(|e: (String, T)| e.1)
    }

    /// The symbol named `key`
    pub closed spec fn get_spec(&self, key: Seq<char>) -> Option<T> {
        match key_index(self.entries@, key, self.entries@.len() as int) {
            Some(i) => Some(self.entries@[i].1),
            None => None,
        }
    }

    pub open spec fn contains_spec(&self, key: Seq<char>) -> bool {
        self.get_spec(key) is Some
    }

    pub fn new() -> (m: Self)
        ensures
            m.keys() == Seq::<Seq<char>>::empty(),
            forall|k: Seq<char>| m.get_spec(k) is None,
    {
        let m = SymbolMap { entries: Vec::new() };
        assert(m.keys() =~= Seq::<Seq<char>>::empty());
        m
    }

    pub fn len(&self) -> (n: usize)
        ensures
            n == self.keys().len(),
            self.keys().no_duplicates(),
    {
        proof {
            use_type_invariant(self);
        }
        self.entries.len()
    }

    pub fn is_empty(&self) -> (r: bool)
        ensures
            r == (self.keys().len() == 0),
    {
        self.entries.len() == 0
    }

    /// Position of `key`
    fn index_of(&self, key: &Vec<char>) -> (r: Option<usize>)
        ensures
            match r {
                Some(i) => key_index(self.entries@, key@, self.entries@.len() as int) == Some(i as int)
                    && i < self.entries@.len(),
                None => key_index(self.entries@, key@, self.entries@.len() as int) is None,
            },
    {
        proof {
            lemma_key_index(self.entries@, key@, self.entries@.len() as int);
        }
        let mut k = self.entries.len();
        while k > 0
            invariant
                k <= self.entries.len(),
                key_index(self.entries@, key@, self.entries@.len() as int) == key_index(self.entries@, key@, k as int),
            decreases k,
        {
            let cs = chars_of(self.entries[k - 1].0.as_str());
            if crate::text::chars_eq(cs.as_slice(), key.as_slice()) {
                return Some(k - 1);
            }
            k = k - 1;
        }
        None
    }

    /// The symbol named `key`
    pub fn get(&self, key: &str) -> (r: Option<&T>)
        ensures
            match r {
                Some(v) => self.get_spec(key@) == Some(*v),
                None => self.get_spec(key@) is None,
            },
    {
        let cs = chars_of(key);
        match self.index_of(&cs) {
            Some(i) => Some(&self.entries[i].1),
            None => None,
        }
    }

    pub fn contains_key(&self, key: &str) -> (r: bool)
        ensures
            r == self.contains_spec(key@),
    {
        self.get(key).is_some()
    }

    /// Sets the symbol named `key`, replacing one of that name in place
    pub fn insert(&mut self, key: String, value: T)
        ensures
            forall|k: Seq<char>| #[trigger] final(self).get_spec(k) == if k == key@ {
                Some(value)
            } else {
                old(self).get_spec(k)
            },
            old(self).contains_spec(key@) ==> final(self).keys() == old(self).keys(),
            !old(self).contains_spec(key@) ==> final(self).keys() == old(self).keys().push(key@),
    {
        proof {
            use_type_invariant(&*self);
        }
        let cs = chars_of(key.as_str());
        let ghost es = self.entries@;
        match self.index_of(&cs) {
            Some(i) => {
                proof {
                    lemma_key_index(es, key@, es.len() as int);
                }
                let mut entries: Vec<(String, T)> = Vec::new();
                std::mem::swap(&mut entries, &mut self.entries);
                entries.set(i, (key, value));
                proof {
                    assert forall|a: int, b: int| 0 <= a < b < entries@.len() implies entries@[a].0@ != entries@[b].0@ by {
                        if a != i && b != i {
                            assert(entries@[a] == es[a] && entries@[b] == es[b]);
                        } else if a == i {
                            assert(entries@[b] == es[b]);
                        } else {
                            assert(entries@[a] == es[a]);
                        }
                    }
                }
                self.entries = entries;
                proof {
                    assert forall|j: int| 0 <= j < es.len() implies (#[trigger] self.entries@[j]).0@ == es[j].0@ by {}
                    assert forall|k: Seq<char>| #[trigger] self.get_spec(k) == if k == key@ {
                        Some(value)
                    } else {
                        old(self).get_spec(k)
                    } by {
                        lemma_same_keys(self.entries@, es, k, es.len() as int);
                        lemma_key_index(es, k, es.len() as int);
                        match key_index(es, k, es.len() as int) {
                            Some(j) => {
                                if j != i {
                                    assert(self.entries@[j] == es[j]);
                                }
                            },
                            None => {},
                        }
                    }
                    assert(self.keys() =~= old(self).keys());
                }
            },
            None => {
                proof {
                    lemma_key_index(es, key@, es.len() as int);
                }
                let mut entries: Vec<(String, T)> = Vec::new();
                std::mem::swap(&mut entries, &mut self.entries);
                entries.push((key, value));
                proof {
                    assert forall|a: int, b: int| 0 <= a < b < entries@.len() implies entries@[a].0@ != entries@[b].0@ by {
                        assert(entries@[a] == es[a]);
                        if b < es.len() {
                            assert(entries@[b] == es[b]);
                        }
                    }
                }
                self.entries = entries;
                proof {
                    assert forall|k: Seq<char>| #[trigger] self.get_spec(k) == if k == key@ {
                        Some(value)
                    } else {
                        old(self).get_spec(k)
                    } by {
                        lemma_key_index(self.entries@, k, self.entries@.len() as int);
                        lemma_key_index(es, k, es.len() as int);
                        if k != key@ {
                            assert(key_index(self.entries@, k, self.entries@.len() as int)
                                == key_index(self.entries@, k, es.len() as int));
                            assert forall|j: int| 0 <= j < es.len() implies (#[trigger] self.entries@[j]).0@ == es[j].0@ by {
                                assert(self.entries@[j] == es[j]);
                            }
                            lemma_same_keys(self.entries@, es, k, es.len() as int);
                            match key_index(es, k, es.len() as int) {
                                Some(j) => {
                                    assert(self.entries@[j] == es[j]);
                                },
                                None => {},
                            }
                        }
                    }
                    assert(self.keys() =~= old(self).keys().push(key@));
                }
            },
        }
    }

    /// The name at position `i`
    pub fn key_at(&self, i: usize) -> (r: &String)
        requires
            i < self.keys().len(),
        ensures
            r@ == self.keys()[i as int],
    {
        &self.entries[i].0
    }

    /// Position of the symbol named `key`
    pub fn find(&self, key: &str) -> (r: Option<usize>)
        ensures
            match r {
                Some(i) => i < self.keys().len() && self.keys()[i as int] == key@ && self.get_spec(key@) == Some(
                    self.values()[i as int],
                ),
                None => self.get_spec(key@) is None,
            },
    {
        proof {
            use_type_invariant(self);
        }
        let cs = chars_of(key);
        let r = self.index_of(&cs);
        proof {
            lemma_key_index(self.entries@, key@, self.entries@.len() as int);
        }
        r
    }

    /// Replaces the symbol at position `i`, handing back the one it held
    pub fn replace_at(&mut self, i: usize, value: T) -> (prev: T)
        requires
            i < old(self).keys().len(),
        ensures
            prev == old(self).values()[i as int],
            old(self).get_spec(old(self).keys()[i as int]) == Some(prev),
            final(self).keys() == old(self).keys(),
            forall|k: Seq<char>| #[trigger] final(self).get_spec(k) == if k == old(self).keys()[i as int] {
                Some(value)
            } else {
                old(self).get_spec(k)
            },
    {
        proof {
            use_type_invariant(&*self);
        }
        let ghost es = self.entries@;
        let mut entries: Vec<(String, T)> = Vec::new();
        std::mem::swap(&mut entries, &mut self.entries);
        let (k, prev) = entries.remove(i);
        entries.insert(i, (k, value));
        proof {
            lemma_lookup_at(es, i as int);
            assert(entries@ =~= es.update(i as int, (k, value)));
            assert forall|j: int| 0 <= j < entries@.len() && j < es.len() implies (#[trigger] entries@[j]).0@ == es[j].0@ by {}
            assert forall|a: int, b: int| 0 <= a < b < entries@.len() implies entries@[a].0@ != entries@[b].0@ by {
                assert(entries@[a].0@ == es[a].0@);
                assert(entries@[b].0@ == es[b].0@);
            }
        }
        self.entries = entries;
        proof {
            assert(self.keys() =~= old(self).keys());
            assert forall|q: Seq<char>| #[trigger] self.get_spec(q) == if q == es[i as int].0@ {
                Some(value)
            } else {
                old(self).get_spec(q)
            } by {
                lemma_same_keys(self.entries@, es, q, es.len() as int);
                lemma_key_index(es, q, es.len() as int);
                lemma_lookup_at(es, i as int);
            }
        }
        prev
    }

    /// The name and symbol at position `i`
    pub fn entry_at(&self, i: usize) -> (r: (&String, &T))
        requires
            i < self.keys().len(),
        ensures
            r.0@ == self.keys()[i as int],
            *r.1 == self.values()[i as int],
            self.get_spec(self.keys()[i as int]) == Some(self.values()[i as int]),
    {
        proof {
            use_type_invariant(self);
            lemma_lookup_at(self.entries@, i as int);
        }
        (&self.entries[i].0, &self.entries[i].1)
    }

    /// The symbol at position `i`
    pub fn value_at(&self, i: usize) -> (r: &T)
        requires
            i < self.keys().len(),
        ensures
            *r == self.values()[i as int],
    {
        &self.entries[i].1
    }

    /// Replaces the symbol at position `i`, keeping its name
    pub fn set_value_at(&mut self, i: usize, value: T)
        requires
            i < old(self).keys().len(),
        ensures
            final(self).keys() == old(self).keys(),
            final(self).values() == old(self).values().update(i as int, value),
    {
        proof {
            use_type_invariant(&*self);
        }
        let ghost es = self.entries@;
        let mut entries: Vec<(String, T)> = Vec::new();
        std::mem::swap(&mut entries, &mut self.entries);
        let (k, _) = entries.remove(i);
        entries.insert(i, (k, value));
        proof {
            assert forall|j: int| 0 <= j < entries@.len() implies (#[trigger] entries@[j]).0@ == es[j].0@ by {
                if j != i {
                    assert(entries@[j] == es[j]);
                }
            }
            assert forall|a: int, b: int| 0 <= a < b < entries@.len() implies entries@[a].0@ != entries@[b].0@ by {
                assert(entries@[a].0@ == es[a].0@);
                assert(entries@[b].0@ == es[b].0@);
            }
        }
        self.entries = entries;
        proof {
            assert(self.keys() =~= old(self).keys());
            assert(self.values() =~= old(self).values().update(i as int, value));
        }
    }

    /// The entries, in insertion order, handed over
    pub fn into_entries(self) -> (r: Vec<(String, T)>)
        ensures
            r@.map_values(|e: (String, T)| e.0@) == self.keys(),
            r@.map_values(|e: (String, T)| e.1) == self.values(),
    {
        self.entries
    }

    /// The entries, in insertion order
    pub fn entries(&self) -> (r: &Vec<(String, T)>)
        ensures
            r@.map_values(|e: (String, T)| e.0@) == self.keys(),
            r@.map_values(|e: (String, T)| e.1) == self.values(),
    {
        &self.entries
    }
}

impl<T: Chronicled> SymbolMap<T> {
    /// Folds each symbol of `dp` into the symbol of the same name, adding the
    /// names that are new after the present ones; returns how many were new
    pub fn absorb_all(&mut self, dp: SymbolMap<T>, version: &Option<Versioning>) -> (n: usize)
        ensures
            merges(*old(self), dp, *version, *final(self)),
            n == fresh_names(*old(self), dp.keys()).len(),
            old(self).keys().no_duplicates(),
            dp.keys().no_duplicates(),
    {
        proof {
            use_type_invariant(&*self);
            use_type_invariant(&dp);
        }
        let ghost cur0 = *self;
        let ghost d0 = dp;
        let ghost ks = dp.keys();
        let SymbolMap { entries: mut rest } = dp;
        let ghost des = rest@;
        proof {
            assert(des.len() == rest.len());
        }
        let mut n: usize = 0;
        let mut i: usize = 0;
        while rest.len() > 0
            invariant
                des == d0.entries@,
                des.len() <= usize::MAX,
                ks == d0.keys(),
                forall|a: int, b: int| 0 <= a < b < des.len() ==> des[a].0@ != des[b].0@,
                i <= des.len(),
                rest@ == des.subrange(i as int, des.len() as int),
                forall|a: int, b: int| 0 <= a < b < self.entries@.len() ==> self.entries@[a].0@ != self.entries@[b].0@,
                self.keys() == cur0.keys() + fresh_names(cur0, ks.take(i as int)),
                n == fresh_names(cur0, ks.take(i as int)).len(),
                n <= i,
                forall|k: Seq<char>| !ks.take(i as int).contains(k) ==> #[trigger] self.get_spec(k) == cur0.get_spec(k),
                forall|k: Seq<char>|
                    ks.take(i as int).contains(k) ==> (#[trigger] self.get_spec(k) matches Some(x) && base_of(cur0, d0, k).absorbs(
                        &d0.get_spec(k)->0,
                        *version,
                        &x,
                    )),
            decreases rest.len(),
        {
            proof {
                assert(rest@.len() == des.len() - i);
            }
            let (k, x) = rest.remove(0);
            let ghost kv = k@;
            proof {
                assert(des[i as int] == (k, x));
                assert(ks[i as int] == kv);
                crate::chronicle::lemma_fresh_names_step(cur0, ks, i as int);
                assert(ks.take(i as int + 1) =~= ks.take(i as int).push(kv));
                assert(!ks.take(i as int).contains(kv)) by {
                    if ks.take(i as int).contains(kv) {
                        let j = choose|j: int| 0 <= j < i && ks.take(i as int)[j] == kv;
                        assert(des[j].0@ == des[i as int].0@);
                    }
                }
                lemma_lookup_at(des, i as int);
                assert(d0.get_spec(kv) == Some(x));
            }
            let cs = chars_of(k.as_str());
            let ghost es = self.entries@;
            let ghost prev = *self;
            match self.index_of(&cs) {
                Some(j) => {
                    proof {
                        lemma_key_index(es, kv, es.len() as int);
                        assert(self.get_spec(kv) == Some(es[j as int].1));
                        assert(cur0.get_spec(kv) == Some(es[j as int].1));
                    }
                    let mut entries: Vec<(String, T)> = Vec::new();
                    std::mem::swap(&mut entries, &mut self.entries);
                    let (kk, c) = entries.remove(j);
                    let r = c.absorb(x, version);
                    entries.insert(j, (kk, r));
                    proof {
                        assert(entries@ =~= es.update(j as int, (kk, r)));
                        assert forall|a: int| 0 <= a < entries@.len() && a < es.len() implies (#[trigger] entries@[a]).0@ == es[a].0@ by {}
                        assert forall|a: int, b: int| 0 <= a < b < entries@.len() implies entries@[a].0@ != entries@[b].0@ by {
                            assert(entries@[a].0@ == es[a].0@);
                            assert(entries@[b].0@ == es[b].0@);
                        }
                    }
                    self.entries = entries;
                    proof {
                        assert(self.keys() =~= old_keys(es));
                        assert forall|q: Seq<char>| q != kv implies #[trigger] self.get_spec(q) == prev.get_spec(q) by {
                            lemma_same_keys(self.entries@, es, q, es.len() as int);
                            lemma_key_index(es, q, es.len() as int);
                        }
                        lemma_same_keys(self.entries@, es, kv, es.len() as int);
                        assert(self.get_spec(kv) == Some(r));
                    }
                },
                None => {
                    proof {
                        lemma_key_index(es, kv, es.len() as int);
                    }
                    let r = x.settle(version);
                    let mut entries: Vec<(String, T)> = Vec::new();
                    std::mem::swap(&mut entries, &mut self.entries);
                    entries.push((k, r));
                    proof {
                        assert(entries@ == es.push((k, r)));
                        assert forall|a: int, b: int| 0 <= a < b < entries@.len() implies entries@[a].0@ != entries@[b].0@ by {
                            assert(entries@[a] == es[a]);
                            if b < es.len() {
                                assert(entries@[b] == es[b]);
                            } else {
                                assert(es[a].0@ != kv);
                            }
                        }
                    }
                    self.entries = entries;
                    proof {
                        assert(self.keys() =~= old_keys(es).push(kv));
                        assert forall|q: Seq<char>| q != kv implies #[trigger] self.get_spec(q) == prev.get_spec(q) by {
                            lemma_lookup_push(es, (k, r), q);
                            lemma_key_index(es, q, es.len() as int);
                            match key_index(es, q, es.len() as int) {
                                Some(a) => {
                                    assert(self.entries@[a] == es[a]);
                                },
                                None => {},
                            }
                        }
                        lemma_lookup_push(es, (k, r), kv);
                        assert(self.get_spec(kv) == Some(r));
                    }
                    n = n + 1;
                },
            }
            proof {
                let ii = i as int;
                assert forall|q: Seq<char>| !ks.take(ii + 1).contains(q) implies #[trigger] self.get_spec(q) == cur0.get_spec(q) by {
                    assert(q != kv);
                    assert(!ks.take(ii).contains(q));
                    assert(prev.get_spec(q) == cur0.get_spec(q));
                }
                assert forall|q: Seq<char>| ks.take(ii + 1).contains(q) implies (#[trigger] self.get_spec(q) matches Some(y) && base_of(cur0, d0, q).absorbs(
                    &d0.get_spec(q)->0,
                    *version,
                    &y,
                )) by {
                    if q != kv {
                        assert(ks.take(ii).contains(q));
                        assert(prev.get_spec(q) == self.get_spec(q));
                    }
                }
            }
            i = i + 1;
        }
        proof {
            assert(ks.take(i as int) =~= ks);
            assert forall|q: Seq<char>| #[trigger] d0.contains_spec(q) == ks.contains(q) by {
                lemma_contains_keys(d0, q);
            }
        }
        n
    }

    /// Folds each symbol into a copy of itself, as happens to a map of
    /// members that is new
    pub fn settle_all(&mut self, version: &Option<Versioning>)
        ensures
            merges(*old(self), *old(self), *version, *final(self)),
    {
        proof {
            use_type_invariant(&*self);
        }
        let ghost cur0 = *self;
        let mut es: Vec<(String, T)> = Vec::new();
        std::mem::swap(&mut es, &mut self.entries);
        let ghost es0 = es@;
        proof {
            assert(es0.len() == es.len());
        }
        let mut out: Vec<(String, T)> = Vec::new();
        let mut i: usize = 0;
        while es.len() > 0
            invariant
                es0 == cur0.entries@,
                es0.len() <= usize::MAX,
                i <= es0.len(),
                es@ == es0.subrange(i as int, es0.len() as int),
                out@.len() == i,
                forall|j: int| 0 <= j < i ==> (#[trigger] out@[j]).0 == es0[j].0 && es0[j].1.absorbs(&es0[j].1, *version, &out@[j].1),
            decreases es.len(),
        {
            proof {
                assert(es@.len() == es0.len() - i);
            }
            let (k, x) = es.remove(0);
            proof {
                assert(es0[i as int] == (k, x));
            }
            let r = x.settle(version);
            out.push((k, r));
            i = i + 1;
        }
        proof {
            assert forall|a: int, b: int| 0 <= a < b < out@.len() implies out@[a].0@ != out@[b].0@ by {
                assert(out@[a].0 == es0[a].0);
                assert(out@[b].0 == es0[b].0);
            }
        }
        self.entries = out;
        proof {
            assert forall|a: int| 0 <= a < out@.len() && a < es0.len() implies (#[trigger] out@[a]).0@ == es0[a].0@ by {}
            assert(self.keys() =~= cur0.keys());
            assert forall|a: int| 0 <= a < cur0.keys().len() implies cur0.contains_spec(#[trigger] cur0.keys()[a]) by {
                lemma_contains_keys(cur0, cur0.keys()[a]);
            }
            lemma_fresh_names_none(cur0, cur0.keys());
            assert(cur0.keys() + fresh_names(cur0, cur0.keys()) =~= cur0.keys());
            assert forall|q: Seq<char>| cur0.contains_spec(q) implies (#[trigger] self.get_spec(q) matches Some(x) && base_of(cur0, cur0, q).absorbs(
                &cur0.get_spec(q)->0,
                *version,
                &x,
            )) by {
                lemma_same_keys(out@, es0, q, es0.len() as int);
                lemma_key_index(es0, q, es0.len() as int);
                let a = key_index(es0, q, es0.len() as int)->0;
                assert(cur0.get_spec(q) == Some(es0[a].1));
                assert(self.get_spec(q) == Some(out@[a].1));
            }
            assert(self.keys() == cur0.keys() + fresh_names(cur0, cur0.keys()));
            assert forall|q: Seq<char>| !cur0.contains_spec(q) implies #[trigger] self.get_spec(q) == cur0.get_spec(q) by {
                lemma_same_keys(out@, es0, q, es0.len() as int);
            }
        }
    }
}

/// The names of entries
spec fn old_keys<T>(es: Seq<(String, T)>) -> Seq<Seq<char>> {
    es.map_values(|e: (String, T)| e.0@)
}

impl<T: Clone> Clone for SymbolMap<T> {
    /// A copy with the same names in the same order
    fn clone(&self) -> (r: Self)
        ensures
            r.keys() == self.keys(),
    {
        proof {
            use_type_invariant(self);
        }
        let mut entries: Vec<(String, T)> = Vec::new();
        let mut i: usize = 0;
        while i < self.entries.len()
            invariant
                i <= self.entries.len(),
                entries@.len() == i,
                forall|j: int| 0 <= j < i ==> (#[trigger] entries@[j]).0@ == self.entries@[j].0@,
                forall|a: int, b: int| 0 <= a < b < self.entries@.len() ==> self.entries@[a].0@ != self.entries@[b].0@,
            decreases self.entries.len() - i,
        {
            let k = self.entries[i].0.clone();
            let v = self.entries[i].1.clone();
            entries.push((k, v));
            i = i + 1;
        }
        let r = SymbolMap { entries: entries };
        assert(r.keys() =~= self.keys());
        r
    }
}

/// With unique names, the name at `j` is found at `j`
proof fn lemma_lookup_at<T>(es: Seq<(String, T)>, j: int)
    requires
        0 <= j < es.len(),
        forall|a: int, b: int| 0 <= a < b < es.len() ==> es[a].0@ != es[b].0@,
    ensures
        key_index(es, es[j].0@, es.len() as int) == Some(j),
{
    lemma_key_index(es, es[j].0@, es.len() as int);
    match key_index(es, es[j].0@, es.len() as int) {
        Some(i) => {
            if i < j {
                assert(es[i].0@ != es[j].0@);
            } else if j < i {
                assert(es[j].0@ != es[i].0@);
            }
        },
        None => {},
    }
}

/// Pushing an entry leaves the lookup of other names as it was
proof fn lemma_lookup_push<T>(es: Seq<(String, T)>, e: (String, T), k: Seq<char>)
    ensures
        key_index(es.push(e), e.0@, es.len() + 1int) == Some(es.len() as int),
        k != e.0@ ==> key_index(es.push(e), k, es.len() + 1int) == key_index(es, k, es.len() as int),
{
    let ps = es.push(e);
    assert(ps[es.len() as int] == e);
    if k != e.0@ {
        assert forall|j: int| 0 <= j < es.len() && j < ps.len() implies (#[trigger] ps[j]).0@ == es[j].0@ by {
            assert(ps[j] == es[j]);
        }
        lemma_same_keys(ps, es, k, es.len() as int);
    }
}

/// Whether `m` has `k` is whether `k` is among its names
pub proof fn lemma_contains_keys<T>(m: SymbolMap<T>, k: Seq<char>)
    ensures
        m.contains_spec(k) == m.keys().contains(k),
{
    let es = m.entries@;
    lemma_key_index(es, k, es.len() as int);
    match key_index(es, k, es.len() as int) {
        Some(i) => {
            assert(m.keys()[i] == k);
        },
        None => {
            if m.keys().contains(k) {
                let j = choose|j: int| 0 <= j < m.keys().len() && m.keys()[j] == k;
                assert(es[j].0@ == k);
            }
        },
    }
}

proof fn lemma_same_keys<T>(a: Seq<(String, T)>, b: Seq<(String, T)>, key: Seq<char>, k: int)
    requires
        0 <= k <= b.len(),
        k <= a.len(),
        forall|j: int| 0 <= j < b.len() && j < a.len() ==> (#[trigger] a[j]).0@ == b[j].0@,
    ensures
        key_index(a, key, k) == key_index(b, key, k),
    decreases k,
{
    if k > 0 {
        assert(a[k - 1].0@ == b[k - 1].0@);
        lemma_same_keys(a, b, key, k - 1);
    }
}

} // verus!
