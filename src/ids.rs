//! Identifiers of items across the packages of a registry.
use vstd::prelude::*;

verus! {

/// Some documentation id within some package of a registry.
#[derive(Clone, Copy, Debug, PartialEq, Eq, Structural, Hash)]
pub struct AbsId {
    /// Position of the package in the registry.
    pub crate_idx: usize,
    /// Id of the item within that package's index.
    pub item_id: u32,
}

impl AbsId {
    /// An id of the same package as this one.
    pub fn same_crate(self, item_id: u32) -> (r: AbsId)
        ensures
            r == (AbsId { crate_idx: self.crate_idx, item_id }),
    {
        AbsId { crate_idx: self.crate_idx, item_id }
    }
}

/// An id that was canonicalised: it names a declaration itself.
#[derive(Clone, Copy, Debug, PartialEq, Eq, Structural, Hash)]
pub struct CanonId(pub AbsId);

/// A canonical id that names a module.
#[derive(Clone, Copy, Debug, PartialEq, Eq, Structural, Hash)]
pub struct ModuleId(pub CanonId);

} // verus!
