//! The error taxonomy of the library.

use vstd::prelude::*;

use crate::mod_meta::ModProvider;

verus! {

/// Everything that can go wrong in the resolver, the sync engine and the
/// merge engine.
#[derive(Debug)]
pub enum Error {
    /// Every provider in the try-order failed for a spec.
    ResolutionFailure { name: String, providers_tried: Vec<ModProvider>, constraint: String },
    /// A removal was blocked because other pinned mods depend on the name.
    DependentsExist { name: String, dependents: Vec<String> },
    /// A downloaded artifact's SHA-512 did not match the pinned hash.
    IntegrityMismatch { filename: String, expected: String, actual: String },
    /// A merge was attempted on incompatible tree shapes.
    StructuralMismatch,
    /// An unbuilt code path was reached.
    NotImplemented,
    /// A mod name with a malformed version constraint.
    InvalidModName { name: String },
    /// A mod that the manifest forbids.
    ForbiddenMod { name: String },
    /// An unrecognized provider name.
    InvalidProvider { text: String },
    /// An unrecognized side name.
    InvalidSide { text: String },
    /// An unrecognized loader name.
    InvalidLoader { text: String },
    /// An unrecognized apply-policy name.
    InvalidApplyPolicy { text: String },
    /// A file type that the merge engine cannot handle.
    UnmergeableFileType { text: String },
}

} // verus!
