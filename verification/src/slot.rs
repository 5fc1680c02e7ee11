//! Per-cell occupancy marker of the placement grid.

use vstd::prelude::*;

verus! {

/// State of one grid cell: unoccupied, a transient structural marker, or
/// occupied by exactly one piece, identified by its index.
///
/// `Identity` has no domain meaning; a committed grid never holds it, which
/// the grid's well-formedness invariant records.
#[derive(Debug, Clone, Copy, PartialEq, Eq, Structural)]
pub enum SlotStatus {
    Free,
    Identity,
    Used(usize),
}

impl SlotStatus {
    /// Returns `true` if the slot status is [`Free`].
    ///
    /// [`Free`]: SlotStatus::Free
    #[must_use]
    pub fn is_free(&self) -> (r: bool)
        ensures
            r == (*self is Free),
    {
        matches!(self, Self::Free)
    }

    /// Returns `true` if the slot status is [`Used`].
    ///
    /// [`Used`]: SlotStatus::Used
    #[must_use]
    pub fn is_used(&self) -> (r: bool)
        ensures
            r == (*self is Used),
    {
        matches!(self, Self::Used(_))
    }

    /// Extracts the occupying piece index, or hands the value back unchanged.
    pub fn try_into_used(self) -> (r: Result<usize, Self>)
        ensures
            self is Used ==> r == Ok::<usize, Self>(self->Used_0),
            !(self is Used) ==> r == Err::<usize, Self>(self),
    {
        if let Self::Used(v) = self {
            Ok(v)
        } else {
            Err(self)
        }
    }

    /// Occupancy a split row inherits from its two neighbors: kept exactly
    /// where both sides agree on the same occupant, `Free` everywhere else.
    pub fn merge(self, rhs: Self) -> (r: Self)
        ensures
            r == SlotStatus::spec_merge(self, rhs),
    {
        if let SlotStatus::Used(a) = self {
            if let SlotStatus::Used(b) = rhs {
                if a == b {
                    return SlotStatus::Used(a);
                }
            }
        }
        SlotStatus::Free
    }

    /// What `merge` returns.
    pub open spec fn spec_merge(a: Self, b: Self) -> Self {
        if a is Used && a == b {
            a
        } else {
            SlotStatus::Free
        }
    }
}

} // verus!
