//! The order in which a layer keeps its entries, and the sorting that
//! establishes it.

use crate::index::SpatialIndex;
use crate::path::{lemma_le_antisymmetric, lemma_le_lt_transitive, lemma_le_transitive, path_le, path_lt};
use rayon::slice::ParallelSliceMut;
use std::cmp::Ordering;
use vstd::prelude::*;

verus! {

/// Strict storage order of entries: by cell in pre-order, then by object id.
pub open spec fn entry_lt<I: SpatialIndex>(a: (I, u64), b: (I, u64)) -> bool {
    path_lt(a.0.path(), b.0.path()) || (a.0.path() == b.0.path() && a.1 < b.1)
}

/// Storage order of entries.
pub open spec fn entry_le<I: SpatialIndex>(a: (I, u64), b: (I, u64)) -> bool {
    !entry_lt(b, a)
}

/// The entries stand in storage order.
pub open spec fn sorted<I: SpatialIndex>(t: Seq<(I, u64)>) -> bool {
    forall|i: int, j: int| 0 <= i < j < t.len() ==> entry_le(#[trigger] t[i], #[trigger] t[j])
}

/// Strict order of id pairs: by the first id, then by the second.
pub open spec fn pair_lt(a: (u64, u64), b: (u64, u64)) -> bool {
    a.0 < b.0 || (a.0 == b.0 && a.1 < b.1)
}

/// The pairs stand in ascending order; equal neighbours are allowed.
pub open spec fn pairs_ascending(s: Seq<(u64, u64)>) -> bool {
    forall|i: int, j: int| 0 <= i < j < s.len() ==> !pair_lt(#[trigger] s[j], #[trigger] s[i])
}

/// The pairs stand in strictly ascending order, so none occurs twice.
pub open spec fn pairs_strictly_ascending(s: Seq<(u64, u64)>) -> bool {
    forall|i: int, j: int| 0 <= i < j < s.len() ==> pair_lt(#[trigger] s[i], #[trigger] s[j])
}

/// The ids stand in ascending order; equal neighbours are allowed.
pub open spec fn ids_ascending(s: Seq<u64>) -> bool {
    forall|i: int, j: int| 0 <= i < j < s.len() ==> s[i] <= s[j]
}

/// The ids stand in strictly ascending order, so none occurs twice.
pub open spec fn ids_strictly_ascending(s: Seq<u64>) -> bool {
    forall|i: int, j: int| 0 <= i < j < s.len() ==> s[i] < s[j]
}

/// In a sorted sequence the cells stand in pre-order.
pub proof fn lemma_sorted_paths<I: SpatialIndex>(t: Seq<(I, u64)>, i: int, j: int)
    requires
        sorted(t),
        0 <= i <= j < t.len(),
    ensures
        path_le(t[i].0.path(), t[j].0.path()),
{
    if i < j {
        assert(entry_le(t[i], t[j]));
    } else {
        crate::path::lemma_lt_asymmetric(t[i].0.path(), t[i].0.path());
    }
}

/// A contiguous part of a sorted sequence is sorted.
pub proof fn lemma_sorted_subrange<I: SpatialIndex>(t: Seq<(I, u64)>, lo: int, hi: int)
    requires
        sorted(t),
        0 <= lo <= hi <= t.len(),
    ensures
        sorted(t.subrange(lo, hi)),
{
    let s = t.subrange(lo, hi);
    assert forall|i: int, j: int| 0 <= i < j < s.len() implies entry_le(
        #[trigger] s[i],
        #[trigger] s[j],
    ) by {
        assert(entry_le(t[lo + i], t[lo + j]));
    }
}

/// Compares two entries in storage order.
pub fn entry_order<I: SpatialIndex>(a: &(I, u64), b: &(I, u64)) -> (o: Ordering)
    ensures
        o == Ordering::Less <==> entry_lt(*a, *b),
        o == Ordering::Greater <==> entry_lt(*b, *a),
{
    if a.0.precedes(&b.0) {
        proof {
            crate::path::lemma_lt_asymmetric(a.0.path(), b.0.path());
        }
        Ordering::Less
    } else if b.0.precedes(&a.0) {
        proof {
            crate::path::lemma_lt_asymmetric(a.0.path(), b.0.path());
        }
        Ordering::Greater
    } else {
        proof {
            lemma_le_antisymmetric(a.0.path(), b.0.path());
        }
        if a.1 < b.1 {
            Ordering::Less
        } else if b.1 < a.1 {
            Ordering::Greater
        } else {
            Ordering::Equal
        }
    }
}

/// Sorts the entries with `sort_unstable_by` of std, comparing by
/// [`entry_order`]: afterwards the vector holds the same entries, each as
/// often as before, in storage order.
#[verifier::external_body]
pub(crate) fn sort_entries<I: SpatialIndex>(tree: &mut Vec<(I, u64)>)
    ensures
        final(tree)@.to_multiset() == old(tree)@.to_multiset(),
        sorted(final(tree)@),
{
    tree.sort_unstable_by(|a, b| entry_order(a, b))
}

/// Sorts the entries with rayon's `par_sort_unstable_by`, comparing by
/// [`entry_order`]: afterwards the vector holds the same entries, each as
/// often as before, in storage order.
#[verifier::external_body]
pub(crate) fn par_sort_entries<I: SpatialIndex + Send + Sync>(tree: &mut Vec<(I, u64)>)
    ensures
        final(tree)@.to_multiset() == old(tree)@.to_multiset(),
        sorted(final(tree)@),
{
    tree.par_sort_unstable_by(|a, b| entry_order(a, b))
}

/// Sorts id pairs with `sort_unstable` of std, which orders tuples of
/// integers by their first component and then by their second: afterwards
/// the vector holds the same pairs, each as often as before, in ascending
/// order.
#[verifier::external_body]
pub(crate) fn sort_pairs(pairs: &mut Vec<(u64, u64)>)
    ensures
        final(pairs)@.to_multiset() == old(pairs)@.to_multiset(),
        pairs_ascending(final(pairs)@),
{
    pairs.sort_unstable()
}

/// Sorts id pairs with rayon's `par_sort_unstable`, which orders as
/// `sort_unstable` of std does: afterwards the vector holds the same pairs,
/// each as often as before, in ascending order.
#[verifier::external_body]
pub(crate) fn par_sort_pairs(pairs: &mut Vec<(u64, u64)>)
    ensures
        final(pairs)@.to_multiset() == old(pairs)@.to_multiset(),
        pairs_ascending(final(pairs)@),
{
    pairs.par_sort_unstable()
}

/// Sorts ids with `sort` of std: afterwards the vector holds the same ids,
/// each as often as before, in ascending order.
#[verifier::external_body]
pub(crate) fn sort_ids(ids: &mut Vec<u64>)
    ensures
        final(ids)@.to_multiset() == old(ids)@.to_multiset(),
        ids_ascending(final(ids)@),
{
    ids.sort()
}

/// The number of leading entries of sorted `tree` whose cell comes strictly
/// before `cell`, found by bisection.
pub fn lower_bound<I: SpatialIndex>(tree: &[(I, u64)], cell: &I) -> (b: usize)
    requires
        sorted(tree@),
    ensures
        b <= tree@.len(),
        forall|i: int| 0 <= i < b ==> path_lt((#[trigger] tree@[i]).0.path(), cell.path()),
        forall|i: int| b <= i < tree@.len() ==> path_le(cell.path(), (#[trigger] tree@[i]).0.path()),
{
    let mut lo: usize = 0;
    let mut hi: usize = tree.len();
    while lo < hi
        invariant
            sorted(tree@),
            lo <= hi <= tree@.len(),
            forall|i: int| 0 <= i < lo ==> path_lt((#[trigger] tree@[i]).0.path(), cell.path()),
            forall|i: int|
                hi <= i < tree@.len() ==> path_le(cell.path(), (#[trigger] tree@[i]).0.path()),
        decreases hi - lo,
    {
        let mid: usize = lo + (hi - lo) / 2;
        if tree[mid].0.precedes(cell) {
            proof {
                assert forall|i: int| 0 <= i < mid + 1 implies path_lt(
                    (#[trigger] tree@[i]).0.path(),
                    cell.path(),
                ) by {
                    lemma_sorted_paths(tree@, i, mid as int);
                    lemma_le_lt_transitive(tree@[i].0.path(), tree@[mid as int].0.path(), cell.path());
                }
            }
            lo = mid + 1;
        } else {
            proof {
                assert forall|i: int| mid <= i < tree@.len() implies path_le(
                    cell.path(),
                    (#[trigger] tree@[i]).0.path(),
                ) by {
                    lemma_sorted_paths(tree@, mid as int, i);
                    lemma_le_transitive(cell.path(), tree@[mid as int].0.path(), tree@[i].0.path());
                }
            }
            hi = mid;
        }
    }
    lo
}

/// Pair `p` stands in one of the first `upto` places of `s`.
pub open spec fn holds_pair(s: Seq<(u64, u64)>, upto: int, p: (u64, u64)) -> bool {
    exists|i: int| 0 <= i < upto && i < s.len() && #[trigger] s[i] == p
}

/// Id `x` stands in one of the first `upto` places of `s`.
pub open spec fn holds_id(s: Seq<u64>, upto: int, x: u64) -> bool {
    exists|i: int| 0 <= i < upto && i < s.len() && #[trigger] s[i] == x
}

/// Removes repeated pairs from an ascending vector, in place: what is left
/// are the same pairs, each once, in strictly ascending order.
pub fn dedup_pairs(pairs: &mut Vec<(u64, u64)>)
    requires
        pairs_ascending(old(pairs)@),
    ensures
        pairs_strictly_ascending(final(pairs)@),
        forall|p: (u64, u64)| final(pairs)@.contains(p) <==> old(pairs)@.contains(p),
{
    let ghost orig = pairs@;
    let n = pairs.len();
    if n == 0 {
        return ;
    }
    let mut w: usize = 1;
    let mut r: usize = 1;
    while r < n
        invariant
            pairs_ascending(orig),
            n == orig.len(),
            n == pairs@.len(),
            1 <= w <= r <= n,
            forall|i: int| r <= i < n ==> pairs@[i] == orig[i],
            forall|a: int, b: int| 0 <= a < b < w ==> pair_lt(#[trigger] pairs@[a], #[trigger] pairs@[b]),
            pairs@[w - 1] == orig[r - 1],
            forall|i: int| 0 <= i < w ==> holds_pair(orig, r as int, #[trigger] pairs@[i]),
            forall|i: int| 0 <= i < r ==> holds_pair(pairs@, w as int, #[trigger] orig[i]),
        decreases n - r,
    {
        let x = pairs[r];
        let last = pairs[w - 1];
        let ghost before = pairs@;
        assert(!pair_lt(orig[r as int], orig[r - 1]));
        if x.0 != last.0 || x.1 != last.1 {
            pairs[w] = x;
            proof {
                let now = pairs@;
                assert forall|a: int, b: int| 0 <= a < b < w + 1 implies pair_lt(
                    #[trigger] now[a],
                    #[trigger] now[b],
                ) by {
                    assert(now[a] == before[a]);
                    if b < w {
                        assert(now[b] == before[b]);
                    } else if a < w - 1 {
                        assert(pair_lt(before[a], before[w - 1]));
                    }
                }
                assert forall|i: int| 0 <= i < w + 1 implies holds_pair(
                    orig,
                    r + 1,
                    #[trigger] now[i],
                ) by {
                    if i < w {
                        assert(now[i] == before[i]);
                        assert(holds_pair(orig, r as int, before[i]));
                        let q = choose|q: int|
                            0 <= q < r && q < orig.len() && #[trigger] orig[q] == before[i];
                        assert(orig[q] == now[i]);
                    } else {
                        assert(orig[r as int] == now[i]);
                    }
                }
                assert forall|i: int| 0 <= i < r + 1 implies holds_pair(
                    now,
                    w + 1,
                    #[trigger] orig[i],
                ) by {
                    if i < r {
                        assert(holds_pair(before, w as int, orig[i]));
                        let q = choose|q: int|
                            0 <= q < w && q < before.len() && #[trigger] before[q] == orig[i];
                        assert(now[q] == orig[i]);
                    } else {
                        assert(now[w as int] == orig[i]);
                    }
                }
            }
            w += 1;
        } else {
            proof {
                assert(orig[r as int] == orig[r - 1]);
                assert forall|i: int| 0 <= i < w implies holds_pair(
                    orig,
                    r + 1,
                    #[trigger] before[i],
                ) by {
                    assert(holds_pair(orig, r as int, before[i]));
                    let q = choose|q: int|
                        0 <= q < r && q < orig.len() && #[trigger] orig[q] == before[i];
                    assert(orig[q] == before[i]);
                }
                assert forall|i: int| 0 <= i < r + 1 implies holds_pair(
                    before,
                    w as int,
                    #[trigger] orig[i],
                ) by {
                    if i == r {
                        assert(before[w - 1] == orig[i]);
                    }
                }
            }
        }
        r += 1;
    }
    let ghost full = pairs@;
    pairs.truncate(w);
    proof {
        let kept = pairs@;
        assert forall|a: int, b: int| 0 <= a < b < kept.len() implies pair_lt(
            #[trigger] kept[a],
            #[trigger] kept[b],
        ) by {
            assert(kept[a] == full[a] && kept[b] == full[b]);
        }
        assert forall|p: (u64, u64)| kept.contains(p) <==> orig.contains(p) by {
            if kept.contains(p) {
                let i = choose|i: int| 0 <= i < kept.len() && kept[i] == p;
                assert(kept[i] == full[i]);
                assert(holds_pair(orig, n as int, full[i]));
                let q = choose|q: int|
                    0 <= q < n && q < orig.len() && #[trigger] orig[q] == full[i];
                assert(orig[q] == p);
            }
            if orig.contains(p) {
                let i = choose|i: int| 0 <= i < orig.len() && orig[i] == p;
                assert(holds_pair(full, w as int, orig[i]));
                let q = choose|q: int|
                    0 <= q < w && q < full.len() && #[trigger] full[q] == orig[i];
                assert(kept[q] == p);
            }
        }
    }
}

/// Removes repeated ids from an ascending vector, in place: what is left
/// are the same ids, each once, in strictly ascending order.
pub fn dedup_ids(ids: &mut Vec<u64>)
    requires
        ids_ascending(old(ids)@),
    ensures
        ids_strictly_ascending(final(ids)@),
        forall|x: u64| final(ids)@.contains(x) <==> old(ids)@.contains(x),
{
    let ghost orig = ids@;
    let n = ids.len();
    if n == 0 {
        return ;
    }
    let mut w: usize = 1;
    let mut r: usize = 1;
    while r < n
        invariant
            ids_ascending(orig),
            n == orig.len(),
            n == ids@.len(),
            1 <= w <= r <= n,
            forall|i: int| r <= i < n ==> ids@[i] == orig[i],
            forall|a: int, b: int| 0 <= a < b < w ==> ids@[a] < ids@[b],
            ids@[w - 1] == orig[r - 1],
            forall|i: int| 0 <= i < w ==> holds_id(orig, r as int, #[trigger] ids@[i]),
            forall|i: int| 0 <= i < r ==> holds_id(ids@, w as int, #[trigger] orig[i]),
        decreases n - r,
    {
        let x = ids[r];
        let last = ids[w - 1];
        let ghost before = ids@;
        assert(orig[r - 1] <= orig[r as int]);
        if x != last {
            ids[w] = x;
            proof {
                let now = ids@;
                assert forall|a: int, b: int| 0 <= a < b < w + 1 implies now[a] < now[b] by {
                    assert(now[a] == before[a]);
                    if b < w {
                        assert(now[b] == before[b]);
                    } else if a < w - 1 {
                        assert(before[a] < before[w - 1]);
                    }
                }
                assert forall|i: int| 0 <= i < w + 1 implies holds_id(
                    orig,
                    r + 1,
                    #[trigger] now[i],
                ) by {
                    if i < w {
                        assert(now[i] == before[i]);
                        assert(holds_id(orig, r as int, before[i]));
                        let q = choose|q: int|
                            0 <= q < r && q < orig.len() && #[trigger] orig[q] == before[i];
                        assert(orig[q] == now[i]);
                    } else {
                        assert(orig[r as int] == now[i]);
                    }
                }
                assert forall|i: int| 0 <= i < r + 1 implies holds_id(
                    now,
                    w + 1,
                    #[trigger] orig[i],
                ) by {
                    if i < r {
                        assert(holds_id(before, w as int, orig[i]));
                        let q = choose|q: int|
                            0 <= q < w && q < before.len() && #[trigger] before[q] == orig[i];
                        assert(now[q] == orig[i]);
                    } else {
                        assert(now[w as int] == orig[i]);
                    }
                }
            }
            w += 1;
        } else {
            proof {
                assert forall|i: int| 0 <= i < w implies holds_id(
                    orig,
                    r + 1,
                    #[trigger] before[i],
                ) by {
                    assert(holds_id(orig, r as int, before[i]));
                    let q = choose|q: int|
                        0 <= q < r && q < orig.len() && #[trigger] orig[q] == before[i];
                    assert(orig[q] == before[i]);
                }
                assert forall|i: int| 0 <= i < r + 1 implies holds_id(
                    before,
                    w as int,
                    #[trigger] orig[i],
                ) by {
                    if i == r {
                        assert(before[w - 1] == orig[i]);
                    }
                }
            }
        }
        r += 1;
    }
    let ghost full = ids@;
    ids.truncate(w);
    proof {
        let kept = ids@;
        assert forall|a: int, b: int| 0 <= a < b < kept.len() implies kept[a] < kept[b] by {
            assert(kept[a] == full[a] && kept[b] == full[b]);
        }
        assert forall|x: u64| kept.contains(x) <==> orig.contains(x) by {
            if kept.contains(x) {
                let i = choose|i: int| 0 <= i < kept.len() && kept[i] == x;
                assert(kept[i] == full[i]);
                assert(holds_id(orig, n as int, full[i]));
                let q = choose|q: int|
                    0 <= q < n && q < orig.len() && #[trigger] orig[q] == full[i];
                assert(orig[q] == x);
            }
            if orig.contains(x) {
                let i = choose|i: int| 0 <= i < orig.len() && orig[i] == x;
                assert(holds_id(full, w as int, orig[i]));
                let q = choose|q: int|
                    0 <= q < w && q < full.len() && #[trigger] full[q] == orig[i];
                assert(kept[q] == x);
            }
        }
    }
}

/// Two strictly ascending sequences of pairs that hold the same pairs are
/// the same sequence.
pub proof fn lemma_ascending_unique(a: Seq<(u64, u64)>, b: Seq<(u64, u64)>)
    requires
        pairs_strictly_ascending(a),
        pairs_strictly_ascending(b),
        forall|p: (u64, u64)| a.contains(p) <==> b.contains(p),
    ensures
        a == b,
    decreases a.len(),
{
    if a.len() == 0 {
        if b.len() > 0 {
            assert(b.contains(b[0]));
        }
        assert(a =~= b);
    } else {
        let x = a.last();
        assert(a.contains(x));
        assert(b.contains(x));
        let y = b.last();
        assert(b.contains(y));
        assert(a.contains(y));
        let ia = choose|i: int| 0 <= i < a.len() && a[i] == y;
        let ib = choose|i: int| 0 <= i < b.len() && b[i] == x;
        if ia < a.len() - 1 {
            assert(pair_lt(a[ia], a[a.len() - 1]));
        }
        if ib < b.len() - 1 {
            assert(pair_lt(b[ib], b[b.len() - 1]));
        }
        assert(x == y);
        let a2 = a.drop_last();
        let b2 = b.drop_last();
        assert forall|p: (u64, u64)| a2.contains(p) <==> b2.contains(p) by {
            if a2.contains(p) {
                let i = choose|i: int| 0 <= i < a2.len() && a2[i] == p;
                assert(a[i] == p);
                assert(pair_lt(a[i], a[a.len() - 1]));
                assert(a.contains(p));
                let q = choose|q: int| 0 <= q < b.len() && b[q] == p;
                assert(b2[q] == p);
            }
            if b2.contains(p) {
                let i = choose|i: int| 0 <= i < b2.len() && b2[i] == p;
                assert(b[i] == p);
                assert(pair_lt(b[i], b[b.len() - 1]));
                assert(b.contains(p));
                let q = choose|q: int| 0 <= q < a.len() && a[q] == p;
                assert(a2[q] == p);
            }
        }
        assert forall|i: int, j: int| 0 <= i < j < a2.len() implies pair_lt(
            #[trigger] a2[i],
            #[trigger] a2[j],
        ) by {
            assert(pair_lt(a[i], a[j]));
        }
        assert forall|i: int, j: int| 0 <= i < j < b2.len() implies pair_lt(
            #[trigger] b2[i],
            #[trigger] b2[j],
        ) by {
            assert(pair_lt(b[i], b[j]));
        }
        lemma_ascending_unique(a2, b2);
        assert(a =~= a2.push(x));
        assert(b =~= b2.push(y));
    }
}

/// What stands in a sequence stands in every rearrangement of it.
pub proof fn lemma_rearranged_contains<A>(a: Seq<A>, b: Seq<A>, x: A)
    requires
        a.to_multiset() == b.to_multiset(),
        a.contains(x),
    ensures
        b.contains(x),
{
    a.to_multiset_ensures();
    b.to_multiset_ensures();
    assert(a.to_multiset().count(x) > 0);
    assert(b.to_multiset().count(x) > 0);
}

} // verus!
