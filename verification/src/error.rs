use vstd::prelude::*;

verus! {

/// The failure taxonomy of the projection engine.
///
/// - `NotFound`: a referenced document or group is absent from the store.
/// - `Integrity`: a parent/child relationship does not hold (the targeted
///   group does not belong to the targeted document).
/// - `MalformedItem`: a stored flat item is missing a required attribute
///   or holds an attribute of the wrong kind.
/// - `Transaction`: an atomic multi-item write was rejected by the store;
///   none of its items were persisted.
/// - `Gateway`: any other storage-layer failure.
#[derive(Clone, Copy, Debug, PartialEq, Eq, Structural)]
pub enum CoreError {
    NotFound,
    Integrity,
    MalformedItem,
    Transaction,
    Gateway,
}

} // verus!
