use vstd::prelude::*;

verus! {

/// A value that carries a version number. Of two values stored under the
/// same key, the one with the greater version wins; nothing else about them
/// is compared.
///
/// An implementation promises that `version` reads the version off the value
/// and nothing else: asked twice of the same value it answers the same.
/// Everything proved about stores and diffs of such values rests on that.
pub trait Versioned {
    /// The version as contracts see it.
    spec fn version_spec(&self) -> i64;

    /// The version of this value.
    fn version(&self) -> (v: i64)
        ensures
            v == self.version_spec(),
    ;
}

/// A payload together with its version.
#[derive(Clone, Debug, PartialEq, Eq)]
pub struct VersionedValue<P> {
    pub version: i64,
    pub payload: P,
}

impl<P> Versioned for VersionedValue<P> {
    open spec fn version_spec(&self) -> i64 {
        self.version
    }

    fn version(&self) -> (v: i64) {
        self.version
    }
}

} // verus!
