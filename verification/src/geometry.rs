//! The capabilities that a query geometry and a system of bounds have to
//! offer.
//!
//! As with [`crate::index::SpatialIndex`], the spec functions of these
//! traits are defined by implementations written under the verifier and
//! left unspecified for any other; the contracts are what the library takes
//! on trust from an implementation that the verifier has not seen.

use crate::index::SpatialIndex;
use crate::path::turns_below;
use vstd::prelude::*;

verus! {

/// The distance that stands for "no bound": a query that starts with it
/// prunes nothing by distance.
pub const UNBOUNDED: u64 = 0xffff_ffff_ffff_ffff;

/// Child number `k` stands somewhere in `order`.
pub open spec fn names(order: Seq<usize>, k: int) -> bool {
    exists|j: int| 0 <= j < order.len() && #[trigger] order[j] == k
}

/// `order` names every child number below `n`, in `n` places.
pub open spec fn is_order(order: Seq<usize>, n: nat) -> bool {
    &&& order.len() == n
    &&& forall|j: int| 0 <= j < order.len() ==> (#[trigger] order[j]) < n
    &&& forall|k: int| 0 <= k < n ==> #[trigger] names(order, k)
}

/// A geometric predicate that is refined cell by cell, in step with the
/// subdivision of space: the geometry handed to a query belongs to the root
/// cell, and `subdivide` gives the geometry of each child cell.
///
/// Distances are unsigned integers in a unit of the caller's choice, with
/// [`UNBOUNDED`] for "no bound".
pub trait TestGeometry: Sized {
    /// Whether the cell that this geometry belongs to can hold anything
    /// nearer than `nearest`.
    open spec fn admits(&self, nearest: u64) -> bool {
        arbitrary()
    }

    /// The geometry of child cell `k`.
    open spec fn child(&self, k: nat) -> Self {
        arbitrary()
    }

    /// The number of children of a cell; it must be that of the cell codes
    /// that the geometry is used with.
    open spec fn fanout() -> nat {
        arbitrary()
    }

    /// The order in which the child cells are to be visited.
    open spec fn order(&self) -> Seq<usize> {
        arbitrary()
    }

    /// The cheap test by which a whole cell is skipped.
    fn should_test(&self, nearest: u64) -> (b: bool)
        ensures
            b == self.admits(nearest),
    ;

    /// The geometries of the child cells, in the order of the cells.
    fn subdivide(&self) -> (parts: Vec<Self>)
        ensures
            parts@.len() == Self::fanout(),
            forall|k: int| 0 <= k < parts@.len() ==> #[trigger] parts@[k] == self.child(k as nat),
    ;

    /// The order in which the child cells are to be visited.
    fn test_order(&self) -> (order: Vec<usize>)
        ensures
            order@ == self.order(),
            is_order(order@, Self::fanout()),
    ;
}

/// A cell that is skipped at one cutoff is skipped at every smaller one.
#[verifier::opaque]
pub open spec fn monotone<G: TestGeometry>() -> bool {
    forall|g: G, a: u64, b: u64|
        #![trigger g.admits(a), g.admits(b)]
        a <= b && g.admits(a) ==> g.admits(b)
}

/// The bounds of the whole system, which take the bounds of an object of
/// type `B` into the unit cube that cell codes are generated in.
pub trait SystemBounds<B>: Sized {
    /// Bounds in the unit cube.
    type Local;

    /// Whether the object's bounds lie inside the system's.
    open spec fn holds(&self, bounds: &B) -> bool {
        arbitrary()
    }

    /// The object's bounds in the unit cube.
    open spec fn local(&self, bounds: &B) -> Self::Local {
        arbitrary()
    }

    /// Whether the object's bounds lie inside the system's.
    fn contains(&self, bounds: &B) -> (b: bool)
        ensures
            b == self.holds(bounds),
    ;

    /// Takes the object's bounds into the unit cube.
    fn to_local(&self, bounds: &B) -> (local: Self::Local)
        ensures
            local == self.local(bounds),
    ;
}

/// Bounds in the unit cube, from which the cell codes that cover them are
/// generated.
pub trait IndexGenerator<I: SpatialIndex> {
    /// The cells that cover these bounds when none may lie above
    /// `min_depth`.
    open spec fn cells(&self, min_depth: Option<u32>) -> Seq<I> {
        arbitrary()
    }

    /// Generates the cells that cover these bounds, none of them above
    /// `min_depth`.
    fn indices(&self, min_depth: Option<u32>) -> (cells: Vec<I>)
        ensures
            cells@ == self.cells(min_depth),
            forall|i: int|
                0 <= i < cells@.len() ==> turns_below((#[trigger] cells@[i]).path(), I::fanout()),
            forall|i: int|
                0 <= i < cells@.len() && min_depth is Some ==> (#[trigger] cells@[i]).path().len()
                    >= min_depth->0,
    ;
}

} // verus!
