//! Positions into the sorted entries, held in a small vector that stays
//! off the heap while it is short: the stack of ancestors that the sweep
//! keeps, and the places at which the test kernel parts the entries of a
//! cell among its children.

use smallvec::SmallVec;
use vstd::prelude::*;

verus! {

/// A vector of positions, kept in a `SmallVec` with room for 256 of them
/// before it spills to the heap.
#[verifier::external_body]
pub struct Positions {
    items: SmallVec<[usize; 256]>,
}

/// The positions held, the first pushed first.
pub uninterp spec fn positions_held(positions: Positions) -> Seq<usize>;

/// `SmallVec::new`: a vector without positions.
#[verifier::external_body]
pub(crate) fn positions_new() -> (positions: Positions)
    ensures
        positions_held(positions).len() == 0,
{
    Positions { items: SmallVec::new() }
}

/// `SmallVec::len`: the number of positions held.
#[verifier::external_body]
pub(crate) fn positions_len(positions: &Positions) -> (n: usize)
    ensures
        n == positions_held(*positions).len(),
{
    positions.items.len()
}

/// Indexing of a `SmallVec` through its slice: the position at place `i`,
/// counted from the first pushed.
#[verifier::external_body]
pub(crate) fn positions_get(positions: &Positions, i: usize) -> (position: usize)
    requires
        i < positions_held(*positions).len(),
    ensures
        position == positions_held(*positions)[i as int],
{
    positions.items[i]
}

/// `SmallVec::push`: adds a position at the end.
#[verifier::external_body]
pub(crate) fn positions_push(positions: &mut Positions, position: usize)
    ensures
        positions_held(*final(positions)) == positions_held(*old(positions)).push(position),
{
    positions.items.push(position)
}

/// `SmallVec::pop`: takes the last position off, if there is one.
#[verifier::external_body]
pub(crate) fn positions_pop(positions: &mut Positions) -> (top: Option<usize>)
    ensures
        positions_held(*old(positions)).len() == 0 ==> top is None && positions_held(*final(positions))
            == positions_held(*old(positions)),
        positions_held(*old(positions)).len() > 0 ==> top == Some(positions_held(*old(positions)).last())
            && positions_held(*final(positions)) == positions_held(*old(positions)).drop_last(),
{
    positions.items.pop()
}

} // verus!
