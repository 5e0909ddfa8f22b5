//! Buffers that the parallel sweep reuses: every worker keeps one, so that
//! a sweep does not have to allocate where an earlier one already has.

use vstd::prelude::*;

verus! {

/// The per-thread store of the `thread_local` crate, carried around and
/// never looked into.
#[verifier::external_type_specification]
#[verifier::external_body]
#[verifier::reject_recursive_types(T)]
pub struct ExThreadLocal<T: Send>(thread_local::ThreadLocal<T>);

/// The cell of std, carried around and never looked into.
#[verifier::external_type_specification]
#[verifier::external_body]
#[verifier::reject_recursive_types(T)]
pub struct ExCell<T: ?Sized>(core::cell::Cell<T>);

/// `ThreadLocal::new`: a store without any slot.  Nothing is claimed of
/// it.
#[verifier::external_body]
pub(crate) fn pool_new() -> (pool: thread_local::ThreadLocal<core::cell::Cell<Vec<(u64, u64)>>>) {
    thread_local::ThreadLocal::new()
}

/// `ThreadLocal::get_or`: the slot of the current thread, made by
/// [`empty_slot`] if the thread has none.  Nothing is claimed of what the
/// slot holds.
#[verifier::external_body]
pub(crate) fn pool_slot(
    pool: &thread_local::ThreadLocal<core::cell::Cell<Vec<(u64, u64)>>>,
) -> (slot: &core::cell::Cell<Vec<(u64, u64)>>) {
    pool.get_or(empty_slot)
}

/// `Cell::new`: a slot that holds the buffer.
#[verifier::external_body]
pub(crate) fn slot_new(buffer: Vec<(u64, u64)>) -> (slot: core::cell::Cell<Vec<(u64, u64)>>) {
    core::cell::Cell::new(buffer)
}

/// `Cell::take`: what the slot held; the slot is left with an empty
/// buffer.  Nothing is claimed of the result.
#[verifier::external_body]
pub(crate) fn slot_take(slot: &core::cell::Cell<Vec<(u64, u64)>>) -> (buffer: Vec<(u64, u64)>) {
    slot.take()
}

/// `Cell::set`: puts the buffer into the slot.
#[verifier::external_body]
pub(crate) fn slot_set(slot: &core::cell::Cell<Vec<(u64, u64)>>, buffer: Vec<(u64, u64)>) {
    slot.set(buffer)
}

/// A slot with an empty buffer.
pub fn empty_slot() -> (slot: core::cell::Cell<Vec<(u64, u64)>>) {
    slot_new(Vec::new())
}

/// Takes the buffer of the current thread and empties it.
pub fn borrow_buffer(pool: &thread_local::ThreadLocal<core::cell::Cell<Vec<(u64, u64)>>>) -> (buffer:
    Vec<(u64, u64)>)
    ensures
        buffer@.len() == 0,
{
    let mut buffer = slot_take(pool_slot(pool));
    buffer.clear();
    buffer
}

/// Leaves a buffer with the current thread for a later sweep; what the
/// buffer holds is dropped.
pub fn return_buffer(
    pool: &thread_local::ThreadLocal<core::cell::Cell<Vec<(u64, u64)>>>,
    buffer: Vec<(u64, u64)>,
) {
    let mut buffer = buffer;
    buffer.clear();
    slot_set(pool_slot(pool), buffer);
}

} // verus!
