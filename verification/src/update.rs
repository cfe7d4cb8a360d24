//! Why a request to replace one key by another was turned down.

use vstd::prelude::*;

verus! {

/// The reasons for which `update_node` leaves a tree untouched, in the order
/// in which they are tested.
#[derive(Clone, Copy, Debug, PartialEq, Eq, Structural)]
pub enum UpdateError {
    /// The tree holds no key at all.
    EmptyTree,
    /// The key to replace is not in the tree.
    Missing,
    /// The old and the new key are the same.
    Unchanged,
    /// The new key is already in the tree.
    Occupied,
}

/// The verdict on replacing `old_key` by `new_key` in a tree holding `keys`.
pub open spec fn update_verdict<K>(keys: Set<K>, old_key: K, new_key: K) -> Result<
    (),
    UpdateError,
> {
    if keys =~= Set::empty() {
        Err(UpdateError::EmptyTree)
    } else if !keys.contains(old_key) {
        Err(UpdateError::Missing)
    } else if old_key == new_key {
        Err(UpdateError::Unchanged)
    } else if keys.contains(new_key) {
        Err(UpdateError::Occupied)
    } else {
        Ok(())
    }
}

} // verus!
