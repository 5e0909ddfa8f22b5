//! The capability that a cell code has to offer.

use crate::path::{path_lt, related, share_ancestor};
use vstd::prelude::*;

verus! {

/// A cell code: a totally ordered name for one cell of a hierarchical
/// subdivision of space.
///
/// The contracts read a code through its path from the root (see
/// [`crate::path`]).  An implementation written under the verifier defines
/// the three spec functions and is checked against the contracts below; for
/// any other implementation they are left unspecified, and the contracts are
/// what the rest of the library takes on trust from it.
pub trait SpatialIndex: Copy {
    /// The child numbers taken from the root down to this cell.
    open spec fn path(&self) -> Seq<nat> {
        arbitrary()
    }

    /// The number of children of a cell that has any.
    open spec fn fanout() -> nat {
        arbitrary()
    }

    /// The depth of the leaves: cells at this depth have no children.
    open spec fn depth_limit() -> nat {
        arbitrary()
    }

    /// The cell that covers the whole system.
    fn root() -> (cell: Self)
        ensures
            cell.path().len() == 0,
    ;

    /// The number of levels between the root and this cell.
    fn depth(&self) -> (d: u32)
        ensures
            d == self.path().len(),
    ;

    /// The children of this cell in order, or nothing for a leaf.
    fn subdivide(&self) -> (children: Option<Vec<Self>>)
        ensures
            children is Some <==> self.path().len() < Self::depth_limit(),
            children is Some ==> children->0@.len() == Self::fanout(),
            children is Some ==> forall|k: int|
                0 <= k < children->0@.len() ==> (#[trigger] children->0@[k]).path()
                    == self.path().push(k as nat),
    ;

    /// Whether one of the two cells contains the other.
    fn overlaps(&self, other: &Self) -> (b: bool)
        ensures
            b == related(self.path(), other.path()),
    ;

    /// Whether the two cells lie below one and the same cell of the given
    /// depth.
    fn same_cell_at_depth(lhs: &Self, rhs: &Self, depth: u32) -> (b: bool)
        ensures
            b == share_ancestor(lhs.path(), rhs.path(), depth as nat),
    ;

    /// Whether this cell comes strictly before the other in storage order.
    fn precedes(&self, other: &Self) -> (b: bool)
        ensures
            b == path_lt(self.path(), other.path()),
    ;
}

} // verus!
