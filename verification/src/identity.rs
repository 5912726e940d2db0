use vstd::prelude::*;

verus! {

/// A process-local identifier for one entry (file or directory) of the
/// handler tree.
///
/// Identities are drawn from a random source at entry-construction time and
/// are unique with overwhelming probability within one process run. They are
/// never persisted; the router uses them only as stable keys when it mints
/// kernel-visible inode numbers.
#[derive(Debug, Clone, Copy, PartialEq, Eq, Structural)]
pub struct ItemIdentity(pub(crate) u64);

impl ItemIdentity {
    /// The raw token value; the router keys its identity map by this.
    pub closed spec fn value(self) -> u64 {
        self.0
    }

    /// The raw token value, for keying the router's identity map.
    pub(crate) fn raw(&self) -> (r: u64)
        ensures
            r == self.value(),
    {
        self.0
    }

    /// Create a fresh identity from the process-wide random source.
    ///
    /// No uniqueness guarantee beyond the probabilistic one, so nothing is
    /// promised about the returned value.
    pub fn new() -> ItemIdentity {
        ItemIdentity(random_u64())
    }
}

/// Relies on rand's thread-local generator: returns some 64-bit value; being
/// random, nothing is promised of it.
#[verifier::external_body]
fn random_u64() -> u64 {
    rand::random::<u64>()
}

} // verus!
