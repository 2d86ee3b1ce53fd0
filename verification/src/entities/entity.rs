//! Opaque identifiers for the objects of a scene.

use vstd::prelude::*;

verus! {

/// Names one object. Two entities are the same object exactly when their
/// identifiers are equal.
#[derive(Clone, Copy, Debug, PartialEq, Eq, Structural, Hash)]
pub struct Entity(pub u128);

impl View for Entity {
    type V = u128;

    open spec fn view(&self) -> u128 {
        self.0
    }
}

/// `id` carries the marks of a random identifier: its version field reads 4
/// and its variant field starts with the bits 1 and 0.
pub open spec fn is_random_id(id: u128) -> bool {
    id & 0x0000_0000_0000_f000_c000_0000_0000_0000 == 0x0000_0000_0000_4000_8000_0000_0000_0000
}

impl Entity {
    /// Mints a fresh identifier.
    ///
    /// Trusted: calls `uuid::Uuid::new_v4` and reads the result as a number
    /// with `Uuid::as_u128`. The other 122 bits come from the system's
    /// random source, so the contract claims only the version and variant
    /// marks that `new_v4` sets on every identifier it returns. The call
    /// aborts if the system cannot supply random bytes.
    #[verifier::external_body]
    pub fn new() -> (e: Entity)
        ensures
            is_random_id(e@),
    {
        Entity(uuid::Uuid::new_v4().as_u128())
    }

    /// The entity with the given identifier.
    pub fn from_id(id: u128) -> (e: Entity)
        ensures
            e@ == id,
    {
        Entity(id)
    }

    /// The 128-bit identifier.
    pub fn id(&self) -> (id: u128)
        ensures
            id == self@,
    {
        self.0
    }
}

} // verus!
