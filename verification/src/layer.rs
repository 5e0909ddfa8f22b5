//! The layer: a store of (cell, object) entries with the queries on it.

use crate::geometry::{monotone, IndexGenerator, SystemBounds, TestGeometry, UNBOUNDED};
use crate::index::SpatialIndex;
use crate::order::{
    dedup_ids, dedup_pairs, lemma_rearranged_contains, pairs_strictly_ascending, par_sort_entries,
    par_sort_pairs, sort_entries, sort_ids, sort_pairs, sorted,
};
use crate::parallel::{par_scan_impl, worker_count};
use crate::path::turns_below;
use crate::query::{
    lemma_collected, lemma_picked, pick_result, picked, test_result, Collector, Picker,
};
use crate::scratch::{pool_new, return_buffer};
use crate::sweep::{
    above, answered, deep, emitted, kept, lemma_candidate_pair, lemma_sweep_report, may_be_asked,
    scan_impl, sweep_candidates, swept_exactly, touching,
};
use crate::walk::{stop_depth, test_impl, within};
use rustc_hash::FxHashSet;
use vstd::prelude::*;

verus! {

/// The entries that the cells `cells` make for object `id`.
pub open spec fn tagged<I: SpatialIndex>(cells: Seq<I>, id: u64) -> Seq<(I, u64)> {
    Seq::new(cells.len(), |i: int| (cells[i], id))
}

/// The entries that `extend` makes of `objects`: for each object whose
/// bounds lie inside the system's, in turn, one entry for each cell that is
/// generated for its bounds.
pub open spec fn generated<B, S, I>(bounds: S, objects: Seq<(B, u64)>, min_depth: u32) -> Seq<
    (I, u64),
> where I: SpatialIndex, S: SystemBounds<B>, S::Local: IndexGenerator<I>
    decreases objects.len(),
{
    if objects.len() == 0 {
        Seq::empty()
    } else {
        let last = objects.last();
        let before = generated::<B, S, I>(bounds, objects.drop_last(), min_depth);
        if bounds.holds(&last.0) {
            before + tagged(bounds.local(&last.0).cells(Some(min_depth)), last.1)
        } else {
            before
        }
    }
}

/// The objects among `objects` whose bounds do not lie inside the system's,
/// in turn.
pub open spec fn rejected<B, S: SystemBounds<B>>(bounds: S, objects: Seq<(B, u64)>) -> Seq<u64>
    decreases objects.len(),
{
    if objects.len() == 0 {
        Seq::empty()
    } else {
        let last = objects.last();
        let before = rejected(bounds, objects.drop_last());
        if bounds.holds(&last.0) {
            before
        } else {
            before.push(last.1)
        }
    }
}

/// The result of a scan over the sorted entries `t` with `filter`: the
/// pairs stand in strictly ascending order, so that none occurs twice; no
/// object is paired with itself; every pair is one that the sweep compares
/// and that the filter may accept; and every pair that the sweep compares
/// and that the filter cannot reject is there.
pub open spec fn scan_result<I: SpatialIndex, F: Fn(u64, u64) -> bool>(
    t: Seq<(I, u64)>,
    filter: F,
    r: Seq<(u64, u64)>,
) -> bool {
    &&& pairs_strictly_ascending(r)
    &&& forall|i: int| 0 <= i < r.len() ==> (#[trigger] r[i]).0 != r[i].1
    &&& forall|p: (u64, u64)|
        #[trigger] r.contains(p) ==> touching(t, p.0, p.1) && call_ensures(filter, p, true)
    &&& forall|a: u64, b: u64|
        #[trigger] touching(t, a, b) && !call_ensures(filter, (a, b), false) ==> r.contains((a, b))
}

/// The result of a scan without a filter: exactly the pairs that the sweep
/// compares, in strictly ascending order.
pub open spec fn plain_scan_result<I: SpatialIndex>(t: Seq<(I, u64)>, r: Seq<(u64, u64)>) -> bool {
    &&& pairs_strictly_ascending(r)
    &&& forall|p: (u64, u64)| #[trigger] r.contains(p) <==> touching(t, p.0, p.1)
}

/// The result of a scan, by the answers of the filter: the sweep asks the
/// filter about each of its candidates once, and the result holds the
/// pairs that the filter accepted, each once, in strictly ascending order.
pub open spec fn scanned<I: SpatialIndex, F: Fn(u64, u64) -> bool>(
    t: Seq<(I, u64)>,
    filter: F,
    r: Seq<(u64, u64)>,
) -> bool {
    exists|answers: Seq<bool>|
        #[trigger] answered(filter, sweep_candidates(t), answers) && pairs_strictly_ascending(r)
            && forall|p: (u64, u64)| r.contains(p) <==> kept(sweep_candidates(t), answers).contains(p)
}

/// The filter can be asked about every two different objects with entries
/// of which the second's cell is the first's or contains it.  A scan asks
/// about no other pair.
pub open spec fn asks_allowed<I: SpatialIndex, F: Fn(u64, u64) -> bool>(
    filter: F,
    t: Seq<(I, u64)>,
) -> bool {
    forall|j: int, k: int|
        0 <= j < t.len() && 0 <= k < t.len() && t[j].1 != t[k].1 && #[trigger] above(t, k, j)
            ==> call_requires(filter, (t[j].1, t[k].1))
}

/// The filter gives one answer for each pair.
pub open spec fn decided<F: Fn(u64, u64) -> bool>(filter: F) -> bool {
    forall|p: (u64, u64)|
        !(#[trigger] call_ensures(filter, p, true) && #[trigger] call_ensures(filter, p, false))
}

/// A group of collision data: the entries of a set of objects, and the
/// buffers that the queries reuse.
pub struct Layer<I: SpatialIndex> {
    min_depth: u32,
    tree: Vec<(I, u64)>,
    sorted: bool,
    collisions: Vec<(u64, u64)>,
    test_results: Vec<u64>,
    processed: FxHashSet<u64>,
    invalid: Vec<u64>,
    scratch: thread_local::ThreadLocal<core::cell::Cell<Vec<(u64, u64)>>>,
}

impl<I: SpatialIndex> Layer<I> {
    /// The entries in the order in which they are stored.
    pub closed spec fn entries(&self) -> Seq<(I, u64)> {
        self.tree@
    }

    /// Whether the entries are known to stand in storage order.
    pub closed spec fn is_sorted(&self) -> bool {
        self.sorted
    }

    /// The depth above which no cell is generated.
    pub closed spec fn depth_floor(&self) -> u32 {
        self.min_depth
    }

    /// The objects whose bounds were turned away since the last scan.
    pub closed spec fn invalid_ids(&self) -> Seq<u64> {
        self.invalid@
    }

    /// The pairs that the last scan found.
    pub closed spec fn pairs(&self) -> Seq<(u64, u64)> {
        self.collisions@
    }

    /// The objects that the last test found.
    pub closed spec fn tested(&self) -> Seq<u64> {
        self.test_results@
    }

    /// The layer's invariant: entries that are marked as sorted are sorted,
    /// and every cell takes valid turns and lies at the depth floor or
    /// deeper.
    pub open spec fn wf(&self) -> bool {
        &&& self.is_sorted() ==> sorted(self.entries())
        &&& deep(self.entries(), self.depth_floor() as nat)
        &&& forall|i: int|
            0 <= i < self.entries().len() ==> turns_below(
                (#[trigger] self.entries()[i]).0.path(),
                I::fanout(),
            )
    }

    /// `after` is `before` with its entries put in storage order, and left
    /// as they were if they were marked as sorted.
    pub open spec fn put_in_order(before: &Self, after: &Self) -> bool {
        &&& after.wf()
        &&& after.is_sorted()
        &&& after.entries().to_multiset() == before.entries().to_multiset()
        &&& before.is_sorted() ==> after.entries() == before.entries()
        &&& after.depth_floor() == before.depth_floor()
    }

    /// The entries of the layer, in the order in which they are stored.
    pub fn iter(&self) -> (entries: std::slice::Iter<'_, (I, u64)>)
        ensures
            vstd::std_specs::slice::into_iter_elts(entries) == self.entries(),
    {
        broadcast use vstd::std_specs::slice::axiom_spec_slice_iter;
        let entries = self.tree.as_slice().iter();
        proof {
            assert(vstd::std_specs::slice::into_iter_elts(entries) =~= self.tree@);
        }
        entries
    }

    /// The depth above which no cell is generated.
    pub fn min_depth(&self) -> (d: u32)
        ensures
            d == self.depth_floor(),
    {
        self.min_depth
    }

    /// The objects whose bounds were turned away since the last scan.
    pub fn invalid(&self) -> (ids: &Vec<u64>)
        ensures
            ids@ == self.invalid_ids(),
    {
        &self.invalid
    }

    /// Removes all entries.  An empty layer counts as sorted.
    pub fn clear(&mut self)
        ensures
            final(self).entries().len() == 0,
            final(self).is_sorted(),
            final(self).depth_floor() == old(self).depth_floor(),
            final(self).invalid_ids() == old(self).invalid_ids(),
            final(self).pairs() == old(self).pairs(),
            final(self).tested() == old(self).tested(),
            final(self).wf(),
    {
        self.tree.clear();
        self.sorted = true;
    }

    /// Appends the entries of the objects in `objects`.  An object whose
    /// bounds do not lie inside `system_bounds` gets no entry and is
    /// recorded as invalid.  The layer stays marked as sorted only if it was
    /// and no entry was added.
    pub fn extend<B, S>(&mut self, system_bounds: &S, objects: &[(B, u64)]) where
        S: SystemBounds<B>,
        S::Local: IndexGenerator<I>,

        requires
            old(self).wf(),
        ensures
            final(self).wf(),
            final(self).entries() == old(self).entries() + generated::<B, S, I>(
                *system_bounds,
                objects@,
                old(self).depth_floor(),
            ),
            final(self).invalid_ids() == old(self).invalid_ids() + rejected(
                *system_bounds,
                objects@,
            ),
            final(self).depth_floor() == old(self).depth_floor(),
            final(self).is_sorted() == (old(self).is_sorted() && final(self).entries().len() == old(
                self,
            ).entries().len()),
            final(self).pairs() == old(self).pairs(),
            final(self).tested() == old(self).tested(),
    {
        let ghost base = self.tree@;
        let ghost base_invalid = self.invalid@;
        let ghost was_sorted = self.sorted;
        let ghost sb = *system_bounds;
        let ghost objs = objects@;
        self.tree.reserve(objects.len());
        let mut k: usize = 0;
        while k < objects.len()
            invariant
                objs == objects@,
                sb == *system_bounds,
                k <= objs.len(),
                self.min_depth == old(self).min_depth,
                self.collisions@ == old(self).collisions@,
                self.test_results@ == old(self).test_results@,
                self.tree@ == base + generated::<B, S, I>(
                    sb,
                    objs.subrange(0, k as int),
                    self.min_depth,
                ),
                self.invalid@ == base_invalid + rejected(sb, objs.subrange(0, k as int)),
                self.sorted == (was_sorted && self.tree@.len() == base.len()),
                self.sorted ==> sorted(self.tree@),
                deep(self.tree@, self.min_depth as nat),
                forall|i: int|
                    0 <= i < self.tree@.len() ==> turns_below(
                        (#[trigger] self.tree@[i]).0.path(),
                        I::fanout(),
                    ),
            decreases objs.len() - k,
        {
            let id = objects[k].1;
            let ghost so_far = objs.subrange(0, k as int);
            let ghost next = objs.subrange(0, k + 1);
            proof {
                assert(next.drop_last() =~= so_far);
                assert(next.last() == objs[k as int]);
            }
            if !system_bounds.contains(&objects[k].0) {
                self.invalid.push(id);
                proof {
                    assert(self.invalid@ =~= base_invalid + rejected(sb, next));
                }
            } else {
                let cells = system_bounds.to_local(&objects[k].0).indices(Some(self.min_depth));
                let ghost start = self.tree@;
                let ghost made = tagged(cells@, id);
                let mut q: usize = 0;
                while q < cells.len()
                    invariant
                        q <= cells@.len(),
                        made == tagged(cells@, id),
                        self.min_depth == old(self).min_depth,
                        self.collisions@ == old(self).collisions@,
                        self.test_results@ == old(self).test_results@,
                        self.invalid@ == base_invalid + rejected(sb, so_far),
                        self.tree@ == start + made.subrange(0, q as int),
                        self.sorted == (was_sorted && self.tree@.len() == base.len()),
                        self.sorted ==> sorted(self.tree@),
                        base.len() <= start.len(),
                        deep(self.tree@, self.min_depth as nat),
                        forall|i: int|
                            0 <= i < self.tree@.len() ==> turns_below(
                                (#[trigger] self.tree@[i]).0.path(),
                                I::fanout(),
                            ),
                        forall|i: int|
                            0 <= i < cells@.len() ==> turns_below(
                                (#[trigger] cells@[i]).path(),
                                I::fanout(),
                            ),
                        forall|i: int|
                            0 <= i < cells@.len() ==> (#[trigger] cells@[i]).path().len()
                                >= self.min_depth,
                    decreases cells@.len() - q,
                {
                    let ghost held = self.tree@;
                    self.tree.push((cells[q], id));
                    self.sorted = false;
                    proof {
                        assert(made.subrange(0, q + 1) =~= made.subrange(0, q as int).push(
                            (cells@[q as int], id),
                        ));
                        assert(self.tree@ =~= start + made.subrange(0, q + 1));
                        assert forall|i: int| 0 <= i < self.tree@.len() implies turns_below(
                            (#[trigger] self.tree@[i]).0.path(),
                            I::fanout(),
                        ) && self.tree@[i].0.path().len() >= self.min_depth by {
                            if i < held.len() {
                                assert(self.tree@[i] == held[i]);
                            }
                        }
                    }
                    q += 1;
                }
                proof {
                    assert(made.subrange(0, q as int) =~= made);
                    assert(self.tree@ =~= base + generated::<B, S, I>(sb, next, self.min_depth));
                }
            }
            k += 1;
        }
        proof {
            assert(objs.subrange(0, k as int) =~= objs);
        }
    }

    /// Appends the entries of another layer.  If the other layer's depth
    /// floor is lower, it is taken over, and the result is `true`: the
    /// caller may want to warn, since such a merge can cost the parallel
    /// scan its balance.
    pub fn merge(&mut self, other: &Layer<I>) -> (lowered: bool)
        requires
            old(self).wf(),
            other.wf(),
        ensures
            final(self).wf(),
            final(self).entries() == old(self).entries() + other.entries(),
            lowered == (other.depth_floor() < old(self).depth_floor()),
            final(self).depth_floor() == if lowered {
                other.depth_floor()
            } else {
                old(self).depth_floor()
            },
            !final(self).is_sorted(),
            final(self).invalid_ids() == old(self).invalid_ids(),
            final(self).pairs() == old(self).pairs(),
            final(self).tested() == old(self).tested(),
    {
        let ghost base = self.tree@;
        let lowered = other.min_depth < self.min_depth;
        if lowered {
            self.min_depth = other.min_depth;
        }
        self.sorted = false;
        let mut k: usize = 0;
        while k < other.tree.len()
            invariant
                k <= other.tree@.len(),
                self.tree@ == base + other.tree@.subrange(0, k as int),
                self.min_depth <= other.min_depth,
                !self.sorted,
                self.invalid@ == old(self).invalid@,
                self.collisions@ == old(self).collisions@,
                self.test_results@ == old(self).test_results@,
                self.min_depth == if lowered {
                    other.min_depth
                } else {
                    old(self).min_depth
                },
                other.wf(),
                deep(self.tree@, self.min_depth as nat),
                forall|i: int|
                    0 <= i < self.tree@.len() ==> turns_below(
                        (#[trigger] self.tree@[i]).0.path(),
                        I::fanout(),
                    ),
            decreases other.tree@.len() - k,
        {
            let ghost held = self.tree@;
            self.tree.push(other.tree[k]);
            proof {
                assert(other.tree@.subrange(0, k + 1) =~= other.tree@.subrange(0, k as int).push(
                    other.tree@[k as int],
                ));
                assert(self.tree@ =~= base + other.tree@.subrange(0, k + 1));
                assert(other.entries()[k as int] == other.tree@[k as int]);
                assert forall|i: int| 0 <= i < self.tree@.len() implies turns_below(
                    (#[trigger] self.tree@[i]).0.path(),
                    I::fanout(),
                ) && self.tree@[i].0.path().len() >= self.min_depth by {
                    if i < held.len() {
                        assert(self.tree@[i] == held[i]);
                    }
                }
            }
            k += 1;
        }
        proof {
            assert(other.tree@.subrange(0, k as int) =~= other.tree@);
        }
        lowered
    }

    /// Puts the entries in storage order, unless they are marked as sorted.
    pub fn sort(&mut self)
        requires
            old(self).wf(),
        ensures
            Self::put_in_order(old(self), final(self)),
            final(self).invalid_ids() == old(self).invalid_ids(),
            final(self).pairs() == old(self).pairs(),
            final(self).tested() == old(self).tested(),
    {
        if !self.sorted {
            let ghost before = self.tree@;
            sort_entries(&mut self.tree);
            self.sorted = true;
            proof {
                lemma_same_entries(before, self.tree@, self.min_depth as nat);
            }
        }
    }

    /// Puts the entries in storage order on the workers of the pool,
    /// unless they are marked as sorted.
    pub fn par_sort(&mut self) where I: Send + Sync
        requires
            old(self).wf(),
        ensures
            Self::put_in_order(old(self), final(self)),
            final(self).invalid_ids() == old(self).invalid_ids(),
            final(self).pairs() == old(self).pairs(),
            final(self).tested() == old(self).tested(),
    {
        if !self.sorted {
            let ghost before = self.tree@;
            par_sort_entries(&mut self.tree);
            self.sorted = true;
            proof {
                lemma_same_entries(before, self.tree@, self.min_depth as nat);
            }
        }
    }

    /// Runs a test with a geometry: finds the objects with an entry that a
    /// descent through the cells and the geometry in step reaches.  The
    /// descent goes no deeper than `max_depth`, if that is given.
    pub fn test<G: TestGeometry>(&mut self, geom: &G, max_depth: Option<u32>) -> (r: &Vec<u64>)
        requires
            old(self).wf(),
            monotone::<G>(),
            I::fanout() == G::fanout(),
        ensures
            Self::put_in_order(old(self), final(self)),
            final(self).invalid_ids() == old(self).invalid_ids(),
            final(self).pairs() == old(self).pairs(),
            r@ == final(self).tested(),
            test_result(
                final(self).entries(),
                *geom,
                stop_depth(max_depth, I::depth_limit()),
                r@,
            ),
    {
        self.sort();
        let mut results: Vec<u64> = Vec::new();
        core::mem::swap(&mut self.test_results, &mut results);
        results.clear();
        let mut collector = Collector { results, log: Ghost(Seq::empty()) };
        let root = I::root();
        let ghost t = self.tree@;
        let ghost stop = stop_depth(max_depth, I::depth_limit());
        proof {
            assert(within(t, root.path())) by {
                assert forall|i: int| 0 <= i < t.len() implies crate::path::is_prefix(
                    root.path(),
                    (#[trigger] t[i]).0.path(),
                ) && turns_below(t[i].0.path(), I::fanout()) by {
                    assert(self.entries()[i] == t[i]);
                }
            }
        }
        let r = test_impl(
            self.tree.as_slice(),
            root,
            geom,
            UNBOUNDED,
            max_depth,
            &mut collector,
            &(),
        );
        let ghost log = collector.log@;
        let mut results = collector.results;
        let ghost noted = results@;
        sort_ids(&mut results);
        let ghost ordered = results@;
        dedup_ids(&mut results);
        self.test_results = results;
        proof {
            assert forall|id: u64| #[trigger]
                self.test_results@.contains(id) <==> crate::query::admitted(
                    t,
                    *geom,
                    stop,
                    UNBOUNDED,
                    id,
                ) by {
                lemma_collected(t, *geom, stop, r, log, noted, id);
                if ordered.contains(id) {
                    lemma_rearranged_contains(ordered, noted, id);
                }
                if noted.contains(id) {
                    lemma_rearranged_contains(noted, ordered, id);
                }
            }
        }
        &self.test_results
    }

    /// Picks the nearest object: measures, with `get_dist`, the objects
    /// with an entry that a descent through the cells and the geometry in
    /// step reaches, each object once, and lowers the cutoff to every
    /// smaller distance that it measures.  The descent starts with the
    /// cutoff `max_dist` and goes no deeper than `max_depth`, if that is
    /// given.  The result is the smallest distance below `max_dist` with the
    /// first object that gave it, if there is one.
    pub fn pick<G: TestGeometry, F: Fn(&G, u64, u64) -> Option<u64>>(
        &mut self,
        geom: &G,
        max_dist: u64,
        max_depth: Option<u32>,
        get_dist: F,
    ) -> (res: Option<(u64, u64)>)
        requires
            old(self).wf(),
            monotone::<G>(),
            I::fanout() == G::fanout(),
            forall|g: &G, n: u64, id: u64| call_requires(get_dist, (g, n, id)),
        ensures
            Self::put_in_order(old(self), final(self)),
            final(self).invalid_ids() == old(self).invalid_ids(),
            final(self).pairs() == old(self).pairs(),
            final(self).tested() == old(self).tested(),
            picked(
                get_dist,
                final(self).entries(),
                *geom,
                stop_depth(max_depth, I::depth_limit()),
                max_dist,
                res,
            ),
            pick_result(
                get_dist,
                final(self).entries(),
                *geom,
                stop_depth(max_depth, I::depth_limit()),
                max_dist,
                res,
            ),
    {
        self.sort();
        let mut seen: FxHashSet<u64> = FxHashSet::default();
        core::mem::swap(&mut self.processed, &mut seen);
        seen.clear();
        let mut picker: Picker<G, F> = Picker {
            seen,
            best: None,
            log: Ghost(Seq::empty()),
            asked: Ghost(Seq::empty()),
            measure: core::marker::PhantomData,
        };
        let root = I::root();
        let ghost t = self.tree@;
        let ghost stop = stop_depth(max_depth, I::depth_limit());
        proof {
            assert(within(t, root.path())) by {
                assert forall|i: int| 0 <= i < t.len() implies crate::path::is_prefix(
                    root.path(),
                    (#[trigger] t[i]).0.path(),
                ) && turns_below(t[i].0.path(), I::fanout()) by {
                    assert(self.entries()[i] == t[i]);
                }
            }
            assert(crate::query::picking(
                picker.seen@,
                picker.best,
                get_dist,
                picker.log@,
                picker.asked@,
            ));
        }
        let r = test_impl(
            self.tree.as_slice(),
            root,
            geom,
            max_dist,
            max_depth,
            &mut picker,
            &get_dist,
        );
        proof {
            lemma_picked(
                get_dist,
                t,
                *geom,
                stop,
                max_dist,
                r,
                picker.log@,
                picker.seen@,
                picker.best,
                picker.asked@,
            );
        }
        let best = picker.best;
        let res = match best {
            Some(id) => Some((r, id)),
            None => None,
        };
        proof {
            assert(root.path() =~= Seq::<nat>::empty());
            assert(crate::query::pick_log(get_dist, t, *geom, stop, max_dist, picker.log@, res));
        }
        self.processed = picker.seen;
        res
    }

    /// Finds the pairs of objects with entries in related cells.
    pub fn scan(&mut self) -> (r: &Vec<(u64, u64)>)
        requires
            old(self).wf(),
        ensures
            Self::put_in_order(old(self), final(self)),
            final(self).invalid_ids().len() == 0,
            final(self).tested() == old(self).tested(),
            r@ == final(self).pairs(),
            plain_scan_result(final(self).entries(), r@),
    {
        let all = |a: u64, b: u64| -> (keep: bool)
            ensures
                keep,
            { true };
        self.scan_filtered(all)
    }

    /// Finds the pairs of objects with entries in related cells that
    /// `filter` accepts.  The filter is asked before duplicates are removed,
    /// and only about two different objects with entries of which the
    /// second's cell is the first's or contains it.
    pub fn scan_filtered<F: Fn(u64, u64) -> bool>(&mut self, filter: F) -> (r: &Vec<(u64, u64)>)
        requires
            old(self).wf(),
            asks_allowed(filter, old(self).entries()),
        ensures
            Self::put_in_order(old(self), final(self)),
            final(self).invalid_ids().len() == 0,
            final(self).tested() == old(self).tested(),
            r@ == final(self).pairs(),
            scan_result(final(self).entries(), filter, r@),
            scanned(final(self).entries(), filter, r@),
    {
        let ghost given = self.tree@;
        self.sort();
        self.collisions.clear();
        self.invalid.clear();
        proof {
            lemma_asks_sorted(filter, given, self.tree@);
            assert(self.collisions@ =~= Seq::<(u64, u64)>::empty());
        }
        scan_impl(self.tree.as_slice(), &mut self.collisions, &filter);
        let ghost found = self.collisions@;
        sort_pairs(&mut self.collisions);
        let ghost ordered = self.collisions@;
        dedup_pairs(&mut self.collisions);
        proof {
            lemma_scan_result(self.tree@, filter, found, ordered, self.collisions@);
        }
        &self.collisions
    }

    /// Finds the pairs of objects with entries in related cells, on the
    /// workers of the pool.
    pub fn par_scan(&mut self) -> (r: &Vec<(u64, u64)>) where I: Send + Sync
        requires
            old(self).wf(),
        ensures
            Self::put_in_order(old(self), final(self)),
            final(self).invalid_ids().len() == 0,
            final(self).tested() == old(self).tested(),
            r@ == final(self).pairs(),
            plain_scan_result(final(self).entries(), r@),
    {
        let all = |a: u64, b: u64| -> (keep: bool)
            ensures
                keep,
            { true };
        self.par_scan_filtered(all)
    }

    /// Finds the pairs of objects with entries in related cells that
    /// `filter` accepts, on the workers of the pool.
    pub fn par_scan_filtered<F: Fn(u64, u64) -> bool + Send + Sync>(&mut self, filter: F) -> (r: &Vec<
        (u64, u64),
    >) where I: Send + Sync
        requires
            old(self).wf(),
            asks_allowed(filter, old(self).entries()),
        ensures
            Self::put_in_order(old(self), final(self)),
            final(self).invalid_ids().len() == 0,
            final(self).tested() == old(self).tested(),
            r@ == final(self).pairs(),
            scan_result(final(self).entries(), filter, r@),
            scanned(final(self).entries(), filter, r@),
    {
        let ghost given = self.tree@;
        self.par_sort();
        self.collisions.clear();
        self.invalid.clear();
        proof {
            lemma_asks_sorted(filter, given, self.tree@);
        }
        let threads = worker_count();
        let mut found = par_scan_impl(
            threads,
            self.min_depth,
            self.tree.as_slice(),
            &filter,
            &self.scratch,
        );
        self.collisions.append(&mut found);
        return_buffer(&self.scratch, found);
        let ghost found = self.collisions@;
        par_sort_pairs(&mut self.collisions);
        let ghost ordered = self.collisions@;
        dedup_pairs(&mut self.collisions);
        proof {
            lemma_scan_result(self.tree@, filter, found, ordered, self.collisions@);
        }
        &self.collisions
    }
}

/// The two sequences hold the same cells with the same objects, place by
/// place.
pub open spec fn same_entries<I: SpatialIndex>(a: Seq<(I, u64)>, b: Seq<(I, u64)>) -> bool {
    &&& a.len() == b.len()
    &&& forall|i: int|
        0 <= i < a.len() ==> (#[trigger] a[i]).0.path() == b[i].0.path() && a[i].1 == b[i].1
}

impl<I: SpatialIndex> PartialEq for Layer<I> {
    /// Two layers are equal when they have the same depth floor and the
    /// same entries in the same places, and agree on being sorted; the
    /// buffers of the queries do not count.
    fn eq(&self, other: &Self) -> (r: bool) {
        if self.min_depth != other.min_depth || self.sorted != other.sorted || self.tree.len()
            != other.tree.len() {
            return false;
        }
        let mut k: usize = 0;
        while k < self.tree.len()
            invariant
                self.tree@.len() == other.tree@.len(),
                k <= self.tree@.len(),
                forall|i: int|
                    0 <= i < k ==> (#[trigger] self.tree@[i]).0.path() == other.tree@[i].0.path()
                        && self.tree@[i].1 == other.tree@[i].1,
            decreases self.tree@.len() - k,
        {
            let a = self.tree[k];
            let b = other.tree[k];
            if a.1 != b.1 || a.0.precedes(&b.0) || b.0.precedes(&a.0) {
                proof {
                    crate::path::lemma_lt_asymmetric(a.0.path(), a.0.path());
                }
                return false;
            }
            proof {
                crate::path::lemma_le_antisymmetric(a.0.path(), b.0.path());
            }
            k += 1;
        }
        true
    }
}

impl<I: SpatialIndex> vstd::std_specs::cmp::PartialEqSpecImpl for Layer<I> {
    open spec fn obeys_eq_spec() -> bool {
        true
    }

    open spec fn eq_spec(&self, other: &Self) -> bool {
        &&& self.depth_floor() == other.depth_floor()
        &&& self.is_sorted() == other.is_sorted()
        &&& same_entries(self.entries(), other.entries())
    }
}

impl<I: SpatialIndex> Clone for Layer<I> {
    /// The copy has the depth floor and the entries of the layer that it is
    /// made from; its buffers start empty.
    fn clone(&self) -> (copy: Self)
        ensures
            copy.entries() == self.entries(),
            copy.depth_floor() == self.depth_floor(),
            copy.is_sorted() == self.is_sorted(),
            copy.invalid_ids().len() == 0,
            copy.pairs().len() == 0,
            copy.tested().len() == 0,
            self.wf() ==> copy.wf(),
    {
        let mut tree: Vec<(I, u64)> = Vec::with_capacity(self.tree.len());
        let mut k: usize = 0;
        while k < self.tree.len()
            invariant
                k <= self.tree@.len(),
                tree@ == self.tree@.subrange(0, k as int),
            decreases self.tree@.len() - k,
        {
            tree.push(self.tree[k]);
            proof {
                assert(tree@ =~= self.tree@.subrange(0, k + 1));
            }
            k += 1;
        }
        proof {
            assert(tree@ =~= self.tree@);
        }
        Layer {
            min_depth: self.min_depth,
            tree,
            sorted: self.sorted,
            collisions: Vec::new(),
            test_results: Vec::new(),
            processed: FxHashSet::default(),
            invalid: Vec::new(),
            scratch: pool_new(),
        }
    }
}

impl<I: SpatialIndex> Default for Layer<I> {
    /// An empty layer with depth floor 0, not marked as sorted.
    fn default() -> (layer: Self)
        ensures
            layer.entries().len() == 0,
            layer.depth_floor() == 0,
            !layer.is_sorted(),
            layer.invalid_ids().len() == 0,
            layer.wf(),
    {
        Layer {
            min_depth: 0,
            tree: Vec::new(),
            sorted: false,
            collisions: Vec::new(),
            test_results: Vec::new(),
            processed: FxHashSet::default(),
            invalid: Vec::new(),
            scratch: pool_new(),
        }
    }
}

/// A builder for layers.
pub struct LayerBuilder {
    min_depth: u32,
    index_capacity: Option<usize>,
    collision_capacity: Option<usize>,
    test_capacity: Option<usize>,
}

impl Default for LayerBuilder {
    /// A builder for layers with depth floor 0 and no room set aside.
    fn default() -> (builder: Self)
        ensures
            builder.depth() == 0,
            builder.index_room() is None,
            builder.collision_room() is None,
            builder.test_room() is None,
    {
        LayerBuilder {
            min_depth: 0,
            index_capacity: None,
            collision_capacity: None,
            test_capacity: None,
        }
    }
}

impl LayerBuilder {
    /// The depth floor that the layers will have.
    pub closed spec fn depth(&self) -> u32 {
        self.min_depth
    }

    /// The number of entries to set room aside for, if one was given.
    pub closed spec fn index_room(&self) -> Option<usize> {
        self.index_capacity
    }

    /// The number of pairs to set room aside for, if one was given.
    pub closed spec fn collision_room(&self) -> Option<usize> {
        self.collision_capacity
    }

    /// The number of test results to set room aside for, if one was given.
    pub closed spec fn test_room(&self) -> Option<usize> {
        self.test_capacity
    }

    /// A builder for layers with depth floor 0 and no room set aside.
    pub fn new() -> (builder: Self)
        ensures
            builder.depth() == 0,
            builder.index_room() is None,
            builder.collision_room() is None,
            builder.test_room() is None,
    {
        LayerBuilder {
            min_depth: 0,
            index_capacity: None,
            collision_capacity: None,
            test_capacity: None,
        }
    }

    /// Sets the depth above which no cell is generated.  A higher floor
    /// lets the parallel scan part the entries more evenly, at the price of
    /// more entries for each object.
    pub fn with_min_depth(&mut self, depth: u32) -> (builder: &mut Self)
        ensures
            *final(self) == *final(builder),
            builder.depth() == depth,
            builder.index_room() == old(self).index_room(),
            builder.collision_room() == old(self).collision_room(),
            builder.test_room() == old(self).test_room(),
    {
        self.min_depth = depth;
        self
    }

    /// Sets the number of entries to set room aside for.
    pub fn with_index_capacity(&mut self, capacity: usize) -> (builder: &mut Self)
        ensures
            *final(self) == *final(builder),
            builder.depth() == old(self).depth(),
            builder.index_room() == Some(capacity),
            builder.collision_room() == old(self).collision_room(),
            builder.test_room() == old(self).test_room(),
    {
        self.index_capacity = Some(capacity);
        self
    }

    /// Sets the number of pairs to set room aside for.
    pub fn with_collision_capacity(&mut self, capacity: usize) -> (builder: &mut Self)
        ensures
            *final(self) == *final(builder),
            builder.depth() == old(self).depth(),
            builder.index_room() == old(self).index_room(),
            builder.collision_room() == Some(capacity),
            builder.test_room() == old(self).test_room(),
    {
        self.collision_capacity = Some(capacity);
        self
    }

    /// Sets the number of test results to set room aside for.
    pub fn with_test_capacity(&mut self, capacity: usize) -> (builder: &mut Self)
        ensures
            *final(self) == *final(builder),
            builder.depth() == old(self).depth(),
            builder.index_room() == old(self).index_room(),
            builder.collision_room() == old(self).collision_room(),
            builder.test_room() == Some(capacity),
    {
        self.test_capacity = Some(capacity);
        self
    }

    /// Builds an empty layer with the builder's depth floor.  The room set
    /// aside does not show in the layer's contents.
    pub fn build<I: SpatialIndex>(&self) -> (layer: Layer<I>)
        ensures
            layer.entries().len() == 0,
            layer.is_sorted(),
            layer.depth_floor() == self.depth(),
            layer.invalid_ids().len() == 0,
            layer.pairs().len() == 0,
            layer.tested().len() == 0,
            layer.wf(),
    {
        let tree: Vec<(I, u64)> = match self.index_capacity {
            Some(capacity) => Vec::with_capacity(capacity),
            None => Vec::new(),
        };
        let collisions: Vec<(u64, u64)> = match self.collision_capacity {
            Some(capacity) => Vec::with_capacity(capacity),
            None => Vec::new(),
        };
        let test_results: Vec<u64> = match self.test_capacity {
            Some(capacity) => Vec::with_capacity(capacity),
            None => Vec::new(),
        };
        Layer {
            min_depth: self.min_depth,
            tree,
            sorted: true,
            collisions,
            test_results,
            processed: FxHashSet::default(),
            invalid: Vec::new(),
            scratch: pool_new(),
        }
    }
}

/// A rearrangement of entries keeps what holds of each of them.
proof fn lemma_same_entries<I: SpatialIndex>(before: Seq<(I, u64)>, after: Seq<(I, u64)>, d: nat)
    requires
        after.to_multiset() == before.to_multiset(),
        deep(before, d),
        forall|i: int|
            0 <= i < before.len() ==> turns_below((#[trigger] before[i]).0.path(), I::fanout()),
    ensures
        deep(after, d),
        forall|i: int|
            0 <= i < after.len() ==> turns_below((#[trigger] after[i]).0.path(), I::fanout()),
{
    assert forall|i: int| 0 <= i < after.len() implies (#[trigger] after[i]).0.path().len() >= d
        && turns_below(after[i].0.path(), I::fanout()) by {
        assert(after.contains(after[i]));
        lemma_rearranged_contains(after, before, after[i]);
        let j = choose|j: int| 0 <= j < before.len() && before[j] == after[i];
        assert(turns_below(before[j].0.path(), I::fanout()));
    }
}

/// A filter that can be asked about the related pairs of some entries can
/// be asked about the candidates of the sweep over the sorted entries.
proof fn lemma_asks_sorted<I: SpatialIndex, F: Fn(u64, u64) -> bool>(
    filter: F,
    given: Seq<(I, u64)>,
    t: Seq<(I, u64)>,
)
    requires
        asks_allowed(filter, given),
        t.to_multiset() == given.to_multiset(),
    ensures
        may_be_asked(filter, t),
{
    assert forall|i: int| 0 <= i < sweep_candidates(t).len() implies call_requires(
        filter,
        #[trigger] sweep_candidates(t)[i],
    ) by {
        let w = lemma_candidate_pair(t, t.len() as int, i);
        assert(!crate::sweep::shadows(t, w.1, w.0));
        assert(t.contains(t[w.0]));
        assert(t.contains(t[w.1]));
        lemma_rearranged_contains(t, given, t[w.0]);
        lemma_rearranged_contains(t, given, t[w.1]);
        let j = choose|j: int| 0 <= j < given.len() && given[j] == t[w.0];
        let k = choose|k: int| 0 <= k < given.len() && given[k] == t[w.1];
        assert(above(given, k, j));
    }
}

/// What the sweep has appended becomes the result of a scan when it is
/// sorted and stripped of duplicates.
proof fn lemma_scan_result<I: SpatialIndex, F: Fn(u64, u64) -> bool>(
    t: Seq<(I, u64)>,
    filter: F,
    found: Seq<(u64, u64)>,
    ordered: Seq<(u64, u64)>,
    r: Seq<(u64, u64)>,
)
    requires
        swept_exactly(t, filter, Seq::empty(), found),
        ordered.to_multiset() == found.to_multiset(),
        pairs_strictly_ascending(r),
        forall|p: (u64, u64)| r.contains(p) <==> ordered.contains(p),
    ensures
        scan_result(t, filter, r),
        scanned(t, filter, r),
{
    lemma_sweep_report(t, filter, Seq::empty(), found);
    assert forall|p: (u64, u64)| #[trigger] r.contains(p) implies touching(t, p.0, p.1)
        && call_ensures(filter, p, true) by {
        assert(ordered.contains(p));
        lemma_rearranged_contains(ordered, found, p);
        let i = choose|i: int| 0 <= i < found.len() && found[i] == p;
        assert(touching(t, found[i].0, found[i].1));
    }
    assert forall|i: int| 0 <= i < r.len() implies (#[trigger] r[i]).0 != r[i].1 by {
        assert(r.contains(r[i]));
        crate::sweep::lemma_touching_distinct(t, r[i].0, r[i].1);
    }
    assert forall|a: u64, b: u64|
        #[trigger] touching(t, a, b) && !call_ensures(filter, (a, b), false) implies r.contains(
        (a, b),
    ) by {
        assert(emitted(found, 0, (a, b)));
        let i = choose|i: int| 0 <= i && 0 <= i < found.len() && #[trigger] found[i] == (a, b);
        assert(found.contains((a, b)));
        lemma_rearranged_contains(found, ordered, (a, b));
    }
    let answers = choose|answers: Seq<bool>|
        #[trigger] answered(filter, sweep_candidates(t), answers) && found == Seq::<
            (u64, u64),
        >::empty() + kept(sweep_candidates(t), answers);
    assert(found =~= kept(sweep_candidates(t), answers));
    assert forall|p: (u64, u64)| r.contains(p) <==> kept(sweep_candidates(t), answers).contains(
        p,
    ) by {
        if r.contains(p) {
            lemma_rearranged_contains(ordered, found, p);
        }
        if found.contains(p) {
            lemma_rearranged_contains(found, ordered, p);
        }
    }
}

} // verus!
