//! The parallel sweep: the sorted entries are parted where no cell of one
//! part can contain a cell of the other, and the parts are swept side by
//! side.

use crate::index::SpatialIndex;
use crate::order::{lemma_sorted_subrange, sorted};
use crate::scratch::{borrow_buffer, return_buffer};
use crate::sweep::{
    answered, deep, kept, lemma_kept_append, lemma_split_candidates, may_be_asked, safe_split,
    scan_impl, sweep_candidates, swept_exactly,
};
use vstd::prelude::*;

verus! {

/// Up to this many entries a part is swept in one piece.
pub const SPLIT_THRESHOLD: usize = 64;

/// `rayon::current_num_threads`: the number of workers of the pool that
/// the caller runs in.  Nothing is claimed of it.
#[verifier::external_body]
pub(crate) fn worker_count() -> (n: usize) {
    rayon::current_num_threads()
}

/// `rayon::join` on the sweeps of two parts: both calls of
/// [`par_scan_impl`] have returned, and each result is what that function
/// ensures for its part.
#[verifier::external_body]
pub(crate) fn join_scans<I: SpatialIndex + Send + Sync, F: Fn(u64, u64) -> bool + Send + Sync>(
    threads: usize,
    min_depth: u32,
    head: &[(I, u64)],
    tail: &[(I, u64)],
    filter: &F,
    pool: &thread_local::ThreadLocal<core::cell::Cell<Vec<(u64, u64)>>>,
) -> (r: (Vec<(u64, u64)>, Vec<(u64, u64)>))
    requires
        sorted(head@),
        sorted(tail@),
        deep(head@, min_depth as nat),
        deep(tail@, min_depth as nat),
        may_be_asked(*filter, head@),
        may_be_asked(*filter, tail@),
    ensures
        swept_exactly(head@, *filter, Seq::empty(), r.0@),
        swept_exactly(tail@, *filter, Seq::empty(), r.1@),
{
    rayon::join(
        || par_scan_impl(threads, min_depth, head, filter, pool),
        || par_scan_impl(threads, min_depth, tail, filter, pool),
    )
}

/// Sweeps the sorted entries with up to `threads` workers and returns the
/// pairs found: those that the sweep in one piece appends, in its order.
/// The buffers come from `pool` and go back to it.
///
/// A part of more than [`SPLIT_THRESHOLD`] entries is parted near its
/// middle, at the first place where the entries on either side do not lie
/// below one and the same cell of depth `min_depth`; with all cells at that
/// depth or deeper, no cell of one part then contains a cell of the other,
/// and the pairs of the first part followed by those of the second are the
/// pairs of the whole.
pub(crate) fn par_scan_impl<I: SpatialIndex + Send + Sync, F: Fn(u64, u64) -> bool + Send + Sync>(
    threads: usize,
    min_depth: u32,
    tree: &[(I, u64)],
    filter: &F,
    pool: &thread_local::ThreadLocal<core::cell::Cell<Vec<(u64, u64)>>>,
) -> (out: Vec<(u64, u64)>)
    requires
        sorted(tree@),
        deep(tree@, min_depth as nat),
        may_be_asked(*filter, tree@),
    ensures
        swept_exactly(tree@, *filter, Seq::empty(), out@),
{
    if threads <= 1 || tree.len() <= SPLIT_THRESHOLD {
        let mut out = borrow_buffer(pool);
        proof {
            assert(out@ =~= Seq::<(u64, u64)>::empty());
        }
        scan_impl(tree, &mut out, filter);
        out
    } else {
        let ghost t = tree@;
        let n = tree.len();
        let mut i: usize = n / 2;
        let mut parted = false;
        while i < n && !parted
            invariant
                t == tree@,
                n == t.len(),
                1 <= i <= n,
                parted ==> i < n && !crate::path::share_ancestor(
                    t[i - 1].0.path(),
                    t[i as int].0.path(),
                    min_depth as nat,
                ),
            decreases n - i + (if parted { 0int } else { 1int }),
        {
            if !I::same_cell_at_depth(&tree[i - 1].0, &tree[i].0, min_depth) {
                parted = true;
            } else {
                i += 1;
            }
        }
        let (head, tail) = tree.split_at(i);
        let ghost whole = sweep_candidates(t);
        let ghost left = sweep_candidates(head@);
        let ghost right = sweep_candidates(tail@);
        proof {
            lemma_sorted_subrange(t, 0, i as int);
            lemma_sorted_subrange(t, i as int, n as int);
            assert forall|x: int| 0 <= x < head@.len() implies (#[trigger] head@[x]).0.path().len()
                >= min_depth by {
                assert(head@[x] == t[x]);
            }
            assert forall|x: int| 0 <= x < tail@.len() implies (#[trigger] tail@[x]).0.path().len()
                >= min_depth by {
                assert(tail@[x] == t[i + x]);
            }
            assert(safe_split(t, i as int, min_depth as nat));
            lemma_split_candidates(t, i as int, min_depth as nat);
            assert(whole == left + right);
            assert forall|x: int| 0 <= x < left.len() implies call_requires(
                *filter,
                #[trigger] left[x],
            ) by {
                assert(whole[x] == left[x]);
            }
            assert forall|x: int| 0 <= x < right.len() implies call_requires(
                *filter,
                #[trigger] right[x],
            ) by {
                assert(whole[left.len() + x] == right[x]);
            }
        }
        let (mut out, mut rest) = join_scans(threads / 2, min_depth, head, tail, filter, pool);
        let ghost first = out@;
        let ghost second = rest@;
        out.append(&mut rest);
        return_buffer(pool, rest);
        proof {
            let a1 = choose|a1: Seq<bool>|
                #[trigger] answered(*filter, left, a1) && first == Seq::<(u64, u64)>::empty() + kept(
                    left,
                    a1,
                );
            let a2 = choose|a2: Seq<bool>|
                #[trigger] answered(*filter, right, a2) && second == Seq::<(u64, u64)>::empty()
                    + kept(right, a2);
            let both = a1 + a2;
            lemma_kept_append(left, a1, right, a2);
            assert forall|x: int| 0 <= x < whole.len() implies call_ensures(
                *filter,
                whole[x],
                #[trigger] both[x],
            ) by {
                if x < left.len() {
                    assert(both[x] == a1[x]);
                    assert(call_ensures(*filter, left[x], a1[x]));
                } else {
                    assert(both[x] == a2[x - left.len()]);
                    assert(call_ensures(*filter, right[x - left.len()], a2[x - left.len()]));
                }
            }
            assert(answered(*filter, whole, both));
            assert(out@ =~= Seq::<(u64, u64)>::empty() + kept(whole, both));
        }
        out
    }
}

} // verus!
