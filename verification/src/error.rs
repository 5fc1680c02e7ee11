//! Error kinds of the placement map.

use vstd::prelude::*;

verus! {

/// Error kinds surfaced by the placement map and the hash-table builder.
///
/// `ReadErr` reports input data whose final partial block is too short to
/// carry a block header. `FreeColNotFound` is an internal control signal of
/// track allocation: it is always handled locally by growing the grid and
/// never escapes `add_piece`. `BadShape` stands for a malformed neighborhood
/// view; the verified grid operations prove it cannot arise.
#[derive(Debug, Clone, Copy, PartialEq, Eq, Structural)]
pub enum Error {
    ReadErr,
    FreeColNotFound,
    BadShape,
}

} // verus!
