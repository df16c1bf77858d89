//! Outcomes reported by the story archive when a story is saved.

use vstd::prelude::*;

verus! {

/// Whether saving a story created a fresh entry or replaced one that the
/// guild already had under the same name.
pub enum SaveStory {
    New,
    Update,
}

} // verus!
