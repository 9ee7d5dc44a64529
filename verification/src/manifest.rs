//! Package manifests of SourceMod plugins and includes.

use vstd::prelude::*;

verus! {

/// A package manifest
#[derive(Clone, Debug)]
pub struct Manifest {
    pub package: Package,
    /// Dependency names and version requirements, ordered by name
    pub dependencies: Vec<(String, String)>,
    pub files: Files,
}

/// The files a package ships
#[derive(Clone, Debug)]
pub struct Files {
    pub plugins: Option<Vec<String>>,
    pub includes: Option<Vec<String>>,
    pub translations: Option<Vec<String>>,
    pub configs: Option<Vec<String>>,
    pub gamedata: Option<Vec<String>>,
}

/// What a package is
#[derive(Clone, Debug)]
pub struct Package {
    pub name: String,
    pub version: String,
    pub authors: Vec<String>,
    pub description: Option<String>,
    pub homepage: Option<String>,
    pub documentation: Option<String>,
    pub keywords: Vec<String>,
}

} // verus!
