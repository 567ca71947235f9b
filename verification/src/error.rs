use vstd::prelude::*;

verus! {

/// Why a weighted draw can fail.
#[derive(Clone, Copy, Debug, PartialEq, Eq, Structural)]
pub enum DrawError {
    /// A draw was requested from a set whose total weight is zero.
    EmptySet,
    /// A successor query targeted a character never observed as a predecessor.
    UnknownPredecessor,
}

} // verus!
