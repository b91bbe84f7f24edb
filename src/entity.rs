use vstd::prelude::*;

verus! {

/// The raw value of the invalid-reference sentinel.
pub const PLACEHOLDER_ID: u64 = 0xffff_ffff_ffff_ffff;

/// An entity identity. Identities are meaningful only inside the world or
/// snapshot that produced them.
#[derive(Clone, Copy, Debug, PartialEq, Eq, Structural)]
pub struct Entity {
    pub id: u64,
}

impl Entity {
    /// Builds an identity from its raw value.
    pub fn from_raw(id: u64) -> (r: Entity)
        ensures
            r.id == id,
    {
        Entity { id }
    }

    /// The fixed identity that stands for a reference whose target was not loaded.
    pub fn placeholder() -> (r: Entity)
        ensures
            r.id == PLACEHOLDER_ID,
    {
        Entity { id: PLACEHOLDER_ID }
    }

    /// The raw value of this identity.
    pub fn raw(&self) -> (r: u64)
        ensures
            r == self.id,
    {
        self.id
    }

    /// Whether this is the invalid-reference sentinel.
    pub fn is_placeholder(&self) -> (r: bool)
        ensures
            r == (self.id == PLACEHOLDER_ID),
    {
        self.id == PLACEHOLDER_ID
    }
}

} // verus!
