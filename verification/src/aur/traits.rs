//! The operations of the AUR service, as a trait that the network client and stand-ins share.
use crate::error::ArchToolkitError;
use vstd::prelude::*;

verus! {

/// The AUR operations: package search, package details, comments and PKGBUILD text, over the
/// record types `P` (search hits), `D` (package details) and `C` (comments). Implemented by
/// the network client and by stand-ins such as `MockAurApi`, so that code using the AUR can be
/// tested without it.
pub trait AurApi<P, D, C> {
    /// Packages matching `query`; no match is an empty list, not an error.
    fn search(&self, query: &str) -> Result<Vec<P>, ArchToolkitError>;

    /// Details of the packages `names`; unknown packages are left out.
    fn info(&self, names: &[&str]) -> Result<Vec<D>, ArchToolkitError>;

    /// Comments on package `pkgname`, latest first.
    fn comments(&self, pkgname: &str) -> Result<Vec<C>, ArchToolkitError>;

    /// PKGBUILD text of `package`.
    fn pkgbuild(&self, package: &str) -> Result<String, ArchToolkitError>;
}

} // verus!
