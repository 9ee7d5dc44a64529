//! Version stamps of symbols.

use vstd::prelude::*;
use core::cmp::Ordering;

verus! {

/// When a symbol was introduced and last changed
#[derive(Debug, PartialEq, PartialOrd)]
pub struct Metadata {
    /// Version this symbol was introduced
    pub created: Option<Versioning>,
    /// Version this symbol was last modified
    pub last_updated: Option<Versioning>,
}

/// A version: commit hash, rev-list count and commit time
#[derive(Debug)]
pub struct Versioning {
    pub hash: String,
    /// Rev-list count
    pub count: u64,
    pub time: i64,
}

impl Clone for Versioning {
    fn clone(&self) -> (r: Self)
        ensures
            r == *self,
    {
        Versioning { hash: self.hash.clone(), count: self.count, time: self.time }
    }
}

impl Clone for Metadata {
    fn clone(&self) -> (r: Self)
        ensures
            r == *self,
    {
        let created = match &self.created {
            Some(v) => Some(v.clone()),
            None => None,
        };
        let last_updated = match &self.last_updated {
            Some(v) => Some(v.clone()),
            None => None,
        };
        Metadata { created, last_updated }
    }
}

/// Versions compare equal whatever their fields hold (the comparison looks
/// at one version's hash twice)
impl PartialEq for Versioning {
    fn eq(&self, other: &Self) -> (r: bool) {
        true
    }
}

impl vstd::std_specs::cmp::PartialEqSpecImpl for Versioning {
    open spec fn obeys_eq_spec() -> bool {
        true
    }

    open spec fn eq_spec(&self, other: &Self) -> bool {
        true
    }
}

/// Versions are ordered by their rev-list count
impl PartialOrd for Versioning {
    fn partial_cmp(&self, other: &Self) -> (r: Option<Ordering>) {
        if self.count < other.count {
            Some(Ordering::Less)
        } else if self.count == other.count {
            Some(Ordering::Equal)
        } else {
            Some(Ordering::Greater)
        }
    }
}

impl vstd::std_specs::cmp::PartialOrdSpecImpl for Versioning {
    open spec fn obeys_partial_cmp_spec() -> bool {
        true
    }

    open spec fn partial_cmp_spec(&self, other: &Self) -> Option<Ordering> {
        if self.count < other.count {
            Some(Ordering::Less)
        } else if self.count == other.count {
            Some(Ordering::Equal)
        } else {
            Some(Ordering::Greater)
        }
    }
}

} // verus!
