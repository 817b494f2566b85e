//! What a node needs from its parent to lay itself out.

use vstd::prelude::*;

verus! {

/// What the node needs from its parent to place itself.
#[derive(Debug, Clone, Copy, PartialEq, Eq, Structural)]
pub struct Placement {
    /// The parent lays out absolutely, so this node pins itself.
    pub absolute: bool,
}

} // verus!
