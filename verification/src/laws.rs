//! What holds of the layer's operations taken together.

use crate::geometry::{IndexGenerator, SystemBounds, TestGeometry, UNBOUNDED};
use crate::index::SpatialIndex;
use crate::layer::{decided, generated, plain_scan_result, rejected, scan_result, Layer};
use crate::order::{lemma_ascending_unique, sorted};
use crate::path::{is_prefix, related};
use crate::query::{
    admitted, answer_of, explained, final_cutoff, lemma_champion, lemma_low_below, logged,
    measurable, pick_log, pick_result, test_result,
};
use crate::sweep::{lemma_related_touching, lemma_touching_distinct, lemma_touching_related};
use crate::walk::{
    descend, lemma_low_falls, lemma_replay_threaded, low, reach, station, stop_depth, Visit,
};
use vstd::prelude::*;

verus! {

/// Sorting twice is sorting once: the second sort finds the layer marked as
/// sorted and leaves the entries where the first put them.
pub proof fn lemma_sort_idempotent<I: SpatialIndex>(start: &Layer<I>, once: &Layer<I>, twice: &Layer<I>)
    requires
        Layer::put_in_order(start, once),
        Layer::put_in_order(once, twice),
    ensures
        twice.entries() == once.entries(),
        twice.is_sorted(),
{
}

/// After `clear`, `extend` leaves exactly the entries that are generated
/// for the objects.
pub proof fn lemma_extend_after_clear<B, S, I>(
    cleared: &Layer<I>,
    extended: &Layer<I>,
    bounds: S,
    objects: Seq<(B, u64)>,
) where I: SpatialIndex, S: SystemBounds<B>, S::Local: IndexGenerator<I>
    requires
        cleared.entries().len() == 0,
        extended.entries() == cleared.entries() + generated::<B, S, I>(
            bounds,
            objects,
            cleared.depth_floor(),
        ),
    ensures
        extended.entries() == generated::<B, S, I>(bounds, objects, cleared.depth_floor()),
{
    assert(extended.entries() =~= generated::<B, S, I>(bounds, objects, cleared.depth_floor()));
}

/// An object whose bounds do not lie inside the system's gets no entry and
/// is recorded as invalid.
pub proof fn lemma_invalid_object<B, S, I>(bounds: S, object: (B, u64), min_depth: u32) where
    I: SpatialIndex,
    S: SystemBounds<B>,
    S::Local: IndexGenerator<I>,

    requires
        !bounds.holds(&object.0),
    ensures
        generated::<B, S, I>(bounds, seq![object], min_depth).len() == 0,
        rejected(bounds, seq![object]) == seq![object.1],
{
    let one = seq![object];
    assert(one.drop_last() =~= Seq::<(B, u64)>::empty());
    assert(one.last() == object);
    assert(generated::<B, S, I>(bounds, one.drop_last(), min_depth).len() == 0);
    assert(rejected(bounds, one.drop_last()).len() == 0);
    assert(rejected(bounds, one) =~= seq![object.1]);
}

/// A scan reports only pairs of different objects of which the second has
/// an entry in a cell that is, or contains, the cell of an entry of the
/// first.
pub proof fn lemma_scan_sound<I: SpatialIndex>(t: Seq<(I, u64)>, r: Seq<(u64, u64)>, p: (u64, u64)) -> (w:
    (int, int))
    requires
        plain_scan_result(t, r),
        r.contains(p),
    ensures
        p.0 != p.1,
        0 <= w.0 < t.len(),
        0 <= w.1 < t.len(),
        t[w.0].1 == p.0,
        t[w.1].1 == p.1,
        is_prefix(t[w.1].0.path(), t[w.0].0.path()),
{
    lemma_touching_distinct(t, p.0, p.1);
    lemma_touching_related(t, p.0, p.1)
}

/// A scan reports every two different objects that have entries in related
/// cells, as a pair in one direction or the other.
pub proof fn lemma_scan_complete<I: SpatialIndex>(
    t: Seq<(I, u64)>,
    r: Seq<(u64, u64)>,
    j: int,
    k: int,
)
    requires
        sorted(t),
        plain_scan_result(t, r),
        0 <= j < t.len(),
        0 <= k < t.len(),
        t[j].1 != t[k].1,
        related(t[j].0.path(), t[k].0.path()),
    ensures
        r.contains((t[j].1, t[k].1)) || r.contains((t[k].1, t[j].1)),
{
    lemma_related_touching(t, j, k);
}

/// No pair stands twice in the result of a scan.
pub proof fn lemma_scan_once<I: SpatialIndex, F: Fn(u64, u64) -> bool>(
    t: Seq<(I, u64)>,
    filter: F,
    r: Seq<(u64, u64)>,
    i: int,
    j: int,
)
    requires
        scan_result(t, filter, r),
        0 <= i < j < r.len(),
    ensures
        r[i] != r[j],
{
    assert(crate::order::pair_lt(r[i], r[j]));
}

/// With a filter that gives one answer for each pair, the scan on the
/// workers of the pool and the scan in one piece return the same sequence.
pub proof fn lemma_parallel_agrees<I: SpatialIndex, F: Fn(u64, u64) -> bool>(
    t: Seq<(I, u64)>,
    filter: F,
    serial: Seq<(u64, u64)>,
    parallel: Seq<(u64, u64)>,
)
    requires
        decided(filter),
        scan_result(t, filter, serial),
        scan_result(t, filter, parallel),
    ensures
        serial == parallel,
{
    assert forall|p: (u64, u64)| serial.contains(p) <==> parallel.contains(p) by {
        if serial.contains(p) {
            assert(call_ensures(filter, p, true));
            assert(!call_ensures(filter, (p.0, p.1), false));
        }
        if parallel.contains(p) {
            assert(call_ensures(filter, p, true));
            assert(!call_ensures(filter, (p.0, p.1), false));
        }
    }
    lemma_ascending_unique(serial, parallel);
}

/// With a filter that gives one answer for each pair, a filtered scan
/// reports the pairs of the plain scan that the filter accepts.
pub proof fn lemma_filter_faithful<I: SpatialIndex, F: Fn(u64, u64) -> bool>(
    t: Seq<(I, u64)>,
    filter: F,
    filtered: Seq<(u64, u64)>,
    plain: Seq<(u64, u64)>,
    p: (u64, u64),
)
    requires
        decided(filter),
        scan_result(t, filter, filtered),
        plain_scan_result(t, plain),
    ensures
        filtered.contains(p) <==> plain.contains(p) && call_ensures(filter, p, true),
{
    if plain.contains(p) && call_ensures(filter, p, true) {
        assert(!call_ensures(filter, (p.0, p.1), false));
    }
}

/// With a depth limit, no entry is processed at a cell below it.
pub proof fn lemma_max_depth_honoured(len: nat, max_depth: u32, limit: nat)
    ensures
        station(len, 0, stop_depth(Some(max_depth), limit)) <= max_depth,
        station(len, 0, stop_depth(Some(max_depth), limit)) <= len,
{
}

/// With a measurement that depends on the object alone, a pick returns an
/// object with its distance, and no object that the descent reaches with
/// the final cutoff has a smaller one.
pub proof fn lemma_pick_optimal<I: SpatialIndex, G: TestGeometry, F: Fn(&G, u64, u64) -> Option<u64>>(
    get_dist: F,
    dist: spec_fn(u64) -> Option<u64>,
    t: Seq<(I, u64)>,
    g: G,
    stop: nat,
    max_dist: u64,
    res: Option<(u64, u64)>,
    i: int,
)
    requires
        forall|h: &G, n: u64, id: u64, m: Option<u64>|
            #[trigger] call_ensures(get_dist, (h, n, id), m) ==> m == dist(id),
        pick_result(get_dist, t, g, stop, max_dist, res),
        0 <= i < t.len(),
        reach(g, t[i].0.path(), 0, stop, final_cutoff(res, max_dist)),
    ensures
        match res {
            Some(p) => dist(p.1) == Some(p.0) && p.0 < max_dist && p.0 <= answer_of(dist(t[i].1)),
            None => max_dist <= answer_of(dist(t[i].1)),
        },
{
    let cutoff = final_cutoff(res, max_dist);
    let m = choose|m: Option<u64>|
        #[trigger] measurable(get_dist, t, g, stop, max_dist, t[i].1, m) && answer_of(m) >= cutoff;
    assert(measurable(get_dist, t, g, stop, max_dist, t[i].1, m));
    assert(m == dist(t[i].1));
    match res {
        Some(p) => {
            assert(measurable(get_dist, t, g, stop, max_dist, p.1, Some(p.0)));
        },
        None => {},
    }
}

/// A geometry that admits a cutoff in a child cell admits it in the cell
/// itself: what can be found in a part of a cell can be found in the cell.
pub open spec fn nested<G: TestGeometry>() -> bool {
    forall|g: G, k: nat, n: u64| #[trigger] g.child(k).admits(n) ==> g.admits(n)
}

/// The way down to a cell ends with the turn to that cell.
pub proof fn lemma_descend_last<G: TestGeometry>(g: G, p: Seq<nat>, k: nat)
    ensures
        descend(g, p.push(k)) == descend(g, p).child(k),
    decreases p.len(),
{
    let q = p.push(k);
    assert(q.len() > 0);
    if p.len() == 0 {
        assert(q[0] == k);
        assert(q.drop_first() =~= Seq::<nat>::empty());
        assert(descend(g.child(k), q.drop_first()) == g.child(k));
        assert(descend(g, p) == g);
    } else {
        assert(q[0] == p[0]);
        assert(q.drop_first() =~= p.drop_first().push(k));
        lemma_descend_last(g.child(p[0]), p.drop_first(), k);
        assert(descend(g, q) == descend(g.child(p[0]), q.drop_first()));
        assert(descend(g, p) == descend(g.child(p[0]), p.drop_first()));
    }
}

/// With a nested geometry, a descent from the root reaches an entry exactly
/// when the geometry of the cell at which the entry is processed admits the
/// cutoff.
pub proof fn lemma_reach_nested<G: TestGeometry>(g: G, e: Seq<nat>, stop: nat, n: u64)
    requires
        nested::<G>(),
    ensures
        reach(g, e, 0, stop, n) <==> descend(g, e.subrange(0, station(e.len(), 0, stop) as int)).admits(
            n,
        ),
{
    let top = station(e.len(), 0, stop) as int;
    if descend(g, e.subrange(0, top)).admits(n) {
        lemma_admitted_above(g, e, top, n, top);
        assert forall|d: int| 0 <= d <= top implies (#[trigger] descend(g, e.subrange(0, d))).admits(
            n,
        ) by {
            lemma_admitted_above(g, e, top, n, top - d);
        }
    }
}

/// With a nested geometry, what is admitted in a cell is admitted in the
/// cells above it.
proof fn lemma_admitted_above<G: TestGeometry>(g: G, e: Seq<nat>, top: int, n: u64, up: int)
    requires
        nested::<G>(),
        0 <= up <= top <= e.len(),
        descend(g, e.subrange(0, top)).admits(n),
    ensures
        descend(g, e.subrange(0, top - up)).admits(n),
    decreases up,
{
    if up > 0 {
        lemma_admitted_above(g, e, top, n, up - 1);
        let d = top - up;
        assert(e.subrange(0, d + 1) =~= e.subrange(0, d).push(e[d]));
        lemma_descend_last(g, e.subrange(0, d), e[d]);
    }
}

/// With a nested geometry, a test finds the objects with an entry whose
/// cell the geometry admits, the cell being taken at the depth where the
/// descent stops if it lies deeper.
pub proof fn lemma_test_finds_cells<I: SpatialIndex, G: TestGeometry>(
    t: Seq<(I, u64)>,
    g: G,
    stop: nat,
    r: Seq<u64>,
    id: u64,
)
    requires
        nested::<G>(),
        test_result(t, g, stop, r),
    ensures
        r.contains(id) <==> exists|i: int|
            0 <= i < t.len() && (#[trigger] t[i]).1 == id && descend(
                g,
                t[i].0.path().subrange(0, station(t[i].0.path().len(), 0, stop) as int),
            ).admits(UNBOUNDED),
{
    assert(r.contains(id) <==> admitted(t, g, stop, UNBOUNDED, id));
    if admitted(t, g, stop, UNBOUNDED, id) {
        let i = choose|i: int|
            0 <= i < t.len() && (#[trigger] t[i]).1 == id && reach(
                g,
                t[i].0.path(),
                0,
                stop,
                UNBOUNDED,
            );
        lemma_reach_nested(g, t[i].0.path(), stop, UNBOUNDED);
    }
    if exists|i: int|
        0 <= i < t.len() && (#[trigger] t[i]).1 == id && descend(
            g,
            t[i].0.path().subrange(0, station(t[i].0.path().len(), 0, stop) as int),
        ).admits(UNBOUNDED) {
        let i = choose|i: int|
            0 <= i < t.len() && (#[trigger] t[i]).1 == id && descend(
                g,
                t[i].0.path().subrange(0, station(t[i].0.path().len(), 0, stop) as int),
            ).admits(UNBOUNDED);
        lemma_reach_nested(g, t[i].0.path(), stop, UNBOUNDED);
    }
}

/// Of several objects that measure the smallest distance, a pick returns
/// the one that the descent hands over first: the result's call is answered
/// below every answer before it and at or below every answer after it.
/// Without a result no call is answered below `max_dist`.
pub proof fn lemma_pick_first<I: SpatialIndex, G: TestGeometry, F: Fn(&G, u64, u64) -> Option<u64>>(
    get_dist: F,
    t: Seq<(I, u64)>,
    g: G,
    stop: nat,
    max_dist: u64,
    log: Seq<Visit<G>>,
    res: Option<(u64, u64)>,
) -> (l: int)
    requires
        pick_log(get_dist, t, g, stop, max_dist, log, res),
    ensures
        match res {
            Some(p) => 0 <= l < log.len() && log[l].id == p.1 && log[l].answer == p.0 && p.0
                < max_dist && (forall|q: int| 0 <= q < l ==> p.0 < (#[trigger] log[q]).answer)
                && (forall|q: int| l < q < log.len() ==> p.0 <= (#[trigger] log[q]).answer),
            None => forall|q: int| 0 <= q < log.len() ==> max_dist <= (#[trigger] log[q]).answer,
        },
{
    let n = log.len() as int;
    lemma_replay_threaded(t, Seq::<nat>::empty(), g, stop, max_dist, log, 0);
    let l = lemma_champion(max_dist, log, n);
    assert forall|q: int| 0 <= q < n implies low(max_dist, log, 0, n) <= (#[trigger] log[q]).answer by {
        lemma_low_below(max_dist, log, n, q);
    }
    if res is Some {
        lemma_low_falls(max_dist, log, 0, l, l);
        assert(log[l].nearest == low(max_dist, log, 0, l));
        assert forall|q: int| 0 <= q < l implies log[l].answer < (#[trigger] log[q]).answer by {
            lemma_low_below(max_dist, log, l, q);
        }
    }
    l
}

/// A pick measures no object twice: a call for an object that was handed
/// over before is answered with no bound, without a measurement.
pub proof fn lemma_measured_once<I: SpatialIndex, G: TestGeometry, F: Fn(&G, u64, u64) -> Option<u64>>(
    get_dist: F,
    t: Seq<(I, u64)>,
    g: G,
    stop: nat,
    max_dist: u64,
    log: Seq<Visit<G>>,
    res: Option<(u64, u64)>,
    first: int,
    again: int,
)
    requires
        pick_log(get_dist, t, g, stop, max_dist, log, res),
        0 <= first < again < log.len(),
        log[first].id == log[again].id,
    ensures
        logged(log, again, log[again].id),
        log[again].answer == UNBOUNDED,
{
    assert(explained(get_dist, log, again));
}

} // verus!
