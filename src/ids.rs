use vstd::prelude::*;

verus! {

/// Identifies one attribute within a database.
#[derive(Clone, Copy, Debug, PartialEq, Eq, Structural, PartialOrd, Ord, Hash)]
pub struct AttHandle(pub u16);

/// The type of an attribute, opaque to the database.
#[derive(Clone, Copy, Debug, PartialEq, Eq, Structural, Hash)]
pub struct Uuid(pub u128);

} // verus!
