//! The set of objects that a pick has already measured.

use rustc_hash::{FxBuildHasher, FxHashSet};
use vstd::prelude::*;

verus! {

/// The hasher builder of `rustc_hash`, carried as a type parameter of the
/// set and never looked into.
#[verifier::external_type_specification]
#[verifier::external_body]
pub struct ExFxBuildHasher(FxBuildHasher);

/// `HashSet::insert` on a set of ids with the hasher of `rustc_hash`:
/// afterwards the set holds `id` besides what it held, and the result tells
/// whether `id` is new to it.
#[verifier::external_body]
pub(crate) fn seen_insert(seen: &mut FxHashSet<u64>, id: u64) -> (fresh: bool)
    ensures
        final(seen)@ == old(seen)@.insert(id),
        fresh == !old(seen)@.contains(id),
{
    seen.insert(id)
}

} // verus!
