//! What a progress display shows while a repository is cloned.

use vstd::prelude::*;

verus! {

/// The phase of a clone, from its object counts.
#[derive(Clone, Copy, Debug, PartialEq, Eq, Structural)]
pub enum ClonePhase {
    /// Objects are being received: `received` of `total`.
    Receiving { received: usize, total: usize },
    /// All objects arrived and are being indexed: `indexed` of `total`.
    Indexing { indexed: usize, total: usize },
    /// Every object is indexed; deltas are being resolved.
    ResolvingDeltas,
}

/// The phase of a clone that has received `received_objects` and indexed
/// `indexed_objects` of `total_objects` objects.
pub fn clone_phase(received_objects: usize, total_objects: usize, indexed_objects: usize) -> (r:
    ClonePhase)
    ensures
        received_objects < total_objects ==> r == (ClonePhase::Receiving {
            received: received_objects,
            total: total_objects,
        }),
        received_objects >= total_objects && indexed_objects < total_objects ==> r == (
        ClonePhase::Indexing { indexed: indexed_objects, total: total_objects }),
        received_objects >= total_objects && indexed_objects >= total_objects ==> r
            == ClonePhase::ResolvingDeltas,
{
    if received_objects < total_objects {
        ClonePhase::Receiving { received: received_objects, total: total_objects }
    } else if indexed_objects < total_objects {
        ClonePhase::Indexing { indexed: indexed_objects, total: total_objects }
    } else {
        ClonePhase::ResolvingDeltas
    }
}

} // verus!
