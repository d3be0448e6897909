//! The analysis's arguments.
use vstd::prelude::*;

verus! {

/// Where the package to analyse lives, and which package it is.
pub struct CliArgs {
    /// The directory that holds the manifest.
    pub path: String,
    /// The root package, where it was named.
    pub package: Option<String>,
}

impl CliArgs {
    /// The root package that was named, if one was; otherwise the manifest's
    /// default package has to be looked up.
    pub fn root_package(&self) -> (r: Option<String>)
        ensures
            r matches Some(s) ==> self.package matches Some(p) && s@ == p@,
            r is None <==> self.package is None,
    {
        match &self.package {
            Some(p) => Some(p.clone()),
            None => None,
        }
    }
}

} // verus!
