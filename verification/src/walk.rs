//! The recursive test kernel: a descent through the sorted entries and a
//! query geometry in step.

use crate::geometry::{is_order, monotone, names, TestGeometry};
use crate::index::SpatialIndex;
use crate::order::{lower_bound, sorted};
use crate::positions::{positions_get, positions_held, positions_new, positions_push, Positions};
use crate::path::{
    is_prefix, lemma_before_child, lemma_from_child, lemma_lt_asymmetric,
    lemma_under_child, path_le, path_lt, turns_below,
};
use vstd::prelude::*;
use vstd::slice::slice_subrange;

verus! {

/// One call of a visitor, as the kernel's contract records it: what the
/// visitor was handed and what it answered.
pub struct Visit<G> {
    /// The geometry of the cell at which the entry was processed.
    pub geom: G,
    /// The cutoff at the time of the call.
    pub nearest: u64,
    /// The object of the entry.
    pub id: u64,
    /// The distance that the visitor answered.
    pub answer: u64,
}

/// What the kernel calls for every entry that it reaches.
pub trait Visitor<G: TestGeometry> {
    /// What the visitor reads and never changes; the kernel hands it to
    /// every call.
    type Context;

    /// The calls made so far, oldest first.
    spec fn log(&self) -> Seq<Visit<G>>;

    /// What the visitor needs to hold between calls.
    spec fn ready(&self, context: &Self::Context) -> bool;

    /// Handles one entry and answers with a distance; the kernel lowers its
    /// cutoff to the answer if that is smaller.
    fn visit(&mut self, context: &Self::Context, geom: &G, nearest: u64, id: u64) -> (answer: u64)
        requires
            old(self).ready(context),
        ensures
            final(self).ready(context),
            final(self).log() == old(self).log().push(
                (Visit { geom: *geom, nearest, id, answer }),
            ),
    ;
}

/// The geometry of the cell reached from the cell of `g` by the turns `p`.
pub open spec fn descend<G: TestGeometry>(g: G, p: Seq<nat>) -> G
    decreases p.len(),
{
    if p.len() == 0 {
        g
    } else {
        descend(g.child(p[0]), p.drop_first())
    }
}

/// The depth at which the descent stops: the given limit, if there is one,
/// and the depth of the leaves at the latest.
pub open spec fn stop_depth(max_depth: Option<u32>, limit: nat) -> nat {
    match max_depth {
        Some(m) => if (m as nat) < limit {
            m as nat
        } else {
            limit
        },
        None => limit,
    }
}

/// The depth at which an entry of depth `len` is processed by a descent
/// that starts at depth `start`: its own depth, unless the descent stops
/// above it.
pub open spec fn station(len: nat, start: nat, stop: nat) -> nat {
    if start >= stop {
        start
    } else if len <= stop {
        len
    } else {
        stop
    }
}

/// With cutoff `n`, a descent from the cell of depth `start` with geometry
/// `g` is not turned away on its way to the cell at which the entry with
/// path `e` is processed.
pub open spec fn reach<G: TestGeometry>(g: G, e: Seq<nat>, start: nat, stop: nat, n: u64) -> bool {
    forall|d: int|
        start <= d <= station(e.len(), start, stop) ==> (#[trigger] descend(
            g,
            e.subrange(start as int, d),
        )).admits(n)
}

/// The call `v` was made for entry `i`, with the geometry of the cell at
/// which that entry is processed.
pub open spec fn stands_for<I: SpatialIndex, G: TestGeometry>(
    t: Seq<(I, u64)>,
    i: int,
    start: nat,
    g: G,
    stop: nat,
    v: Visit<G>,
) -> bool {
    &&& v.id == t[i].1
    &&& v.geom == descend(
        g,
        t[i].0.path().subrange(start as int, station(t[i].0.path().len(), start, stop) as int),
    )
}

/// The call `v` was made for an entry that the descent reaches with cutoff
/// `n`.
pub open spec fn sound_at<I: SpatialIndex, G: TestGeometry>(
    t: Seq<(I, u64)>,
    start: nat,
    g: G,
    stop: nat,
    n: u64,
    v: Visit<G>,
) -> bool {
    exists|i: int|
        0 <= i < t.len() && #[trigger] stands_for(t, i, start, g, stop, v) && reach(
            g,
            t[i].0.path(),
            start,
            stop,
            n,
        )
}

/// A call for entry `i` stands in the log at or after place `from`.
pub open spec fn found<I: SpatialIndex, G: TestGeometry>(
    t: Seq<(I, u64)>,
    i: int,
    start: nat,
    g: G,
    stop: nat,
    log: Seq<Visit<G>>,
    from: int,
) -> bool {
    exists|l: int|
        0 <= l && from <= l < log.len() && stands_for(t, i, start, g, stop, #[trigger] log[l])
}

/// The cutoff after the calls from place `from` up to place `upto`: the
/// smallest of the initial cutoff and the answers.
pub open spec fn low<G>(nearest: u64, log: Seq<Visit<G>>, from: int, upto: int) -> u64
    decreases upto - from,
{
    if upto <= from {
        nearest
    } else {
        let m = low(nearest, log, from, upto - 1);
        if log[upto - 1].answer < m {
            log[upto - 1].answer
        } else {
            m
        }
    }
}

/// Every call from place `from` on was handed the cutoff that the calls
/// before it had left, and `r` is the cutoff that the last one leaves.
pub open spec fn threaded<G>(nearest: u64, log: Seq<Visit<G>>, from: int, r: u64) -> bool {
    &&& forall|l: int|
        0 <= l && from <= l < log.len() ==> (#[trigger] log[l]).nearest == low(nearest, log, from, l)
    &&& r == low(nearest, log, from, log.len() as int)
}

/// What a descent has done: it left the earlier calls alone, threaded the
/// cutoff through its own, called only for entries that it reaches with the
/// initial cutoff, and called for every entry that it reaches with the final
/// one.
pub open spec fn walked<I: SpatialIndex, G: TestGeometry>(
    t: Seq<(I, u64)>,
    start: nat,
    g: G,
    stop: nat,
    nearest: u64,
    r: u64,
    before: Seq<Visit<G>>,
    after: Seq<Visit<G>>,
) -> bool {
    &&& before.len() <= after.len()
    &&& forall|l: int| 0 <= l < before.len() ==> after[l] == before[l]
    &&& threaded(nearest, after, before.len() as int, r)
    &&& forall|l: int|
        before.len() <= l < after.len() ==> sound_at(t, start, g, stop, nearest, #[trigger] after[l])
    &&& forall|i: int|
        0 <= i < t.len() && #[trigger] reach(g, t[i].0.path(), start, stop, r) ==> found(
            t,
            i,
            start,
            g,
            stop,
            after,
            before.len() as int,
        )
}

/// All entries lie in the cell with path `c` and take turns below `fanout`.
pub open spec fn within<I: SpatialIndex>(t: Seq<(I, u64)>, c: Seq<nat>) -> bool {
    forall|i: int|
        0 <= i < t.len() ==> is_prefix(c, (#[trigger] t[i]).0.path()) && turns_below(
            t[i].0.path(),
            I::fanout(),
        )
}

/// The cutoff after some calls does not depend on the calls outside them.
pub proof fn lemma_low_same<G>(nearest: u64, a: Seq<Visit<G>>, b: Seq<Visit<G>>, from: int, upto: int)
    requires
        0 <= from,
        upto <= a.len(),
        upto <= b.len(),
        forall|l: int| from <= l < upto ==> a[l] == b[l],
    ensures
        low(nearest, a, from, upto) == low(nearest, b, from, upto),
    decreases upto - from,
{
    if upto > from {
        lemma_low_same(nearest, a, b, from, upto - 1);
    }
}

/// The cutoff can be followed in two stretches.
pub proof fn lemma_low_joined<G>(nearest: u64, log: Seq<Visit<G>>, from: int, mid: int, upto: int)
    requires
        from <= mid <= upto,
    ensures
        low(low(nearest, log, from, mid), log, mid, upto) == low(nearest, log, from, upto),
    decreases upto - mid,
{
    if upto > mid {
        lemma_low_joined(nearest, log, from, mid, upto - 1);
    }
}

/// The cutoff never rises.
pub proof fn lemma_low_falls<G>(nearest: u64, log: Seq<Visit<G>>, from: int, mid: int, upto: int)
    requires
        from <= mid <= upto,
    ensures
        low(nearest, log, from, upto) <= low(nearest, log, from, mid),
        low(nearest, log, from, mid) <= nearest,
    decreases upto - from,
{
    if upto > mid {
        lemma_low_falls(nearest, log, from, mid, upto - 1);
    } else if mid > from {
        lemma_low_falls(nearest, log, from, mid - 1, mid - 1);
    }
}

/// Calls that were threaded from cutoff `mid_r` on, after calls that were
/// threaded up to it, are threaded as a whole.
pub proof fn lemma_threaded_joined<G>(
    nearest: u64,
    old_log: Seq<Visit<G>>,
    log: Seq<Visit<G>>,
    from: int,
    mid_r: u64,
    r: u64,
)
    requires
        0 <= from <= old_log.len() <= log.len(),
        forall|l: int| 0 <= l < old_log.len() ==> log[l] == old_log[l],
        threaded(nearest, old_log, from, mid_r),
        threaded(mid_r, log, old_log.len() as int, r),
    ensures
        threaded(nearest, log, from, r),
{
    let mid = old_log.len() as int;
    lemma_low_same(nearest, old_log, log, from, mid);
    lemma_low_joined(nearest, log, from, mid, log.len() as int);
    assert forall|l: int| 0 <= l && from <= l < log.len() implies (#[trigger] log[l]).nearest
        == low(nearest, log, from, l) by {
        if l < mid {
            lemma_low_same(nearest, old_log, log, from, l);
            assert(log[l] == old_log[l]);
        } else {
            lemma_low_joined(nearest, log, from, mid, l);
        }
    }
}

/// A descent that is not turned away with one cutoff is not turned away
/// with a larger one.
pub proof fn lemma_reach_rises<G: TestGeometry>(
    g: G,
    e: Seq<nat>,
    start: nat,
    stop: nat,
    a: u64,
    b: u64,
)
    requires
        monotone::<G>(),
        a <= b,
        reach(g, e, start, stop, a),
    ensures
        reach(g, e, start, stop, b),
{
    reveal(monotone);
    assert forall|d: int| start <= d <= station(e.len(), start, stop) implies (#[trigger] descend(
        g,
        e.subrange(start as int, d),
    )).admits(b) by {
        assert(descend(g, e.subrange(start as int, d)).admits(a));
    }
}

/// The way down from a cell begins with the turn to one of its children.
pub proof fn lemma_descend_step<G: TestGeometry>(g: G, e: Seq<nat>, start: nat, d: int)
    requires
        start < d <= e.len(),
    ensures
        descend(g, e.subrange(start as int, d)) == descend(
            g.child(e[start as int]),
            e.subrange(start as int + 1, d),
        ),
{
    let p = e.subrange(start as int, d);
    assert(p.drop_first() =~= e.subrange(start as int + 1, d));
}

/// A descent from a cell reaches an entry under one of its children exactly
/// when it is not turned away at the cell and the descent from the child
/// reaches the entry.
pub proof fn lemma_reach_step<G: TestGeometry>(g: G, e: Seq<nat>, start: nat, stop: nat, n: u64)
    requires
        start < stop,
        start < e.len(),
    ensures
        station(e.len(), start, stop) == station(e.len(), start + 1, stop),
        reach(g, e, start, stop, n) <==> g.admits(n) && reach(
            g.child(e[start as int]),
            e,
            start + 1,
            stop,
            n,
        ),
{
    let k = e[start as int];
    let top = station(e.len(), start, stop);
    assert(e.subrange(start as int, start as int) =~= Seq::<nat>::empty());
    assert(descend(g, e.subrange(start as int, start as int)) == g);
    if reach(g, e, start, stop, n) {
        assert(descend(g, e.subrange(start as int, start as int)).admits(n));
        assert forall|d: int| start + 1 <= d <= top implies (#[trigger] descend(
            g.child(k),
            e.subrange(start as int + 1, d),
        )).admits(n) by {
            lemma_descend_step(g, e, start, d);
            assert(descend(g, e.subrange(start as int, d)).admits(n));
        }
    }
    if g.admits(n) && reach(g.child(k), e, start + 1, stop, n) {
        assert forall|d: int| start <= d <= top implies (#[trigger] descend(
            g,
            e.subrange(start as int, d),
        )).admits(n) by {
            if d > start {
                lemma_descend_step(g, e, start, d);
                assert(descend(g.child(k), e.subrange(start as int + 1, d)).admits(n));
            } else {
                assert(e.subrange(start as int, d) =~= Seq::<nat>::empty());
            }
        }
    }
}

/// Calls the visitor for every entry of `part` in turn, with the geometry
/// `geom`, and lowers the cutoff to each answer that is smaller.
pub fn visit_all<I: SpatialIndex, G: TestGeometry, V: Visitor<G>>(
    part: &[(I, u64)],
    geom: &G,
    nearest: u64,
    visitor: &mut V,
    context: &V::Context,
) -> (r: u64)
    requires
        old(visitor).ready(context),
    ensures
        final(visitor).ready(context),
        final(visitor).log().len() == old(visitor).log().len() + part@.len(),
        forall|l: int|
            0 <= l < old(visitor).log().len() ==> final(visitor).log()[l] == old(visitor).log()[l],
        forall|i: int|
            0 <= i < part@.len() ==> (#[trigger] final(visitor).log()[old(visitor).log().len() + i]).id
                == part@[i].1 && final(visitor).log()[old(visitor).log().len() + i].geom == *geom,
        threaded(nearest, final(visitor).log(), old(visitor).log().len() as int, r),
{
    let ghost before = visitor.log();
    let ghost from = before.len() as int;
    let mut cur = nearest;
    let mut i: usize = 0;
    while i < part.len()
        invariant
            i <= part@.len(),
            from == before.len(),
            visitor.ready(context),
            visitor.log().len() == from + i,
            forall|l: int| 0 <= l < from ==> visitor.log()[l] == before[l],
            forall|q: int|
                0 <= q < i ==> (#[trigger] visitor.log()[from + q]).id == part@[q].1
                    && visitor.log()[from + q].geom == *geom,
            threaded(nearest, visitor.log(), from, cur),
        decreases part@.len() - i,
    {
        let ghost log0 = visitor.log();
        let answer = visitor.visit(context, geom, cur, part[i].1);
        let ghost log1 = visitor.log();
        let next = if answer < cur {
            answer
        } else {
            cur
        };
        proof {
            assert forall|l: int| 0 <= l && from + i <= l < log1.len() implies (
            #[trigger] log1[l]).nearest == low(cur, log1, from + i, l) by {}
            assert(low(cur, log1, from + i, from + i) == cur);
            assert(low(cur, log1, from + i, from + i + 1) == next);
            assert(threaded(cur, log1, log0.len() as int, next));
            lemma_threaded_joined(nearest, log0, log1, from, cur, next);
            assert forall|q: int| 0 <= q < i + 1 implies (#[trigger] log1[from + q]).id
                == part@[q].1 && log1[from + q].geom == *geom by {
                if q < i {
                    assert(log1[from + q] == log0[from + q]);
                }
            }
        }
        cur = next;
        i += 1;
    }
    cur
}

/// Place `b` parts the entries that come before child `k` of the cell with
/// path `c` from those that do not.
pub open spec fn cut_at<I: SpatialIndex>(t: Seq<(I, u64)>, c: Seq<nat>, k: int, b: int) -> bool {
    &&& 0 <= b <= t.len()
    &&& forall|i: int| 0 <= i < b ==> path_lt((#[trigger] t[i]).0.path(), c.push(k as nat))
    &&& forall|i: int| b <= i < t.len() ==> path_le(c.push(k as nat), (#[trigger] t[i]).0.path())
}

/// Child number `k` stands in one of the first `j` places of `order`.
pub open spec fn seen_child(order: Seq<usize>, j: int, k: nat) -> bool {
    exists|q: int| 0 <= q < j && q < order.len() && #[trigger] order[q] == k
}

/// Entry `i` lies in the cell of depth `start` itself, or under one of the
/// children that stand in the first `j` places of `order`.
pub open spec fn handled<I: SpatialIndex>(
    t: Seq<(I, u64)>,
    order: Seq<usize>,
    j: int,
    start: nat,
    i: int,
) -> bool {
    let e = t[i].0.path();
    e.len() == start || (e.len() > start && seen_child(order, j, e[start as int]))
}

/// What comes before the first child of a cell lies in the cell itself.
proof fn lemma_cut_head<I: SpatialIndex>(t: Seq<(I, u64)>, c: Seq<nat>, b: int, i: int)
    requires
        within(t, c),
        cut_at(t, c, 0, b),
        0 <= i < b,
    ensures
        t[i].0.path().len() == c.len(),
{
    lemma_before_child(c, t[i].0.path(), 0);
}

/// What lies in a cell itself comes before the cell's first child.
proof fn lemma_cut_root<I: SpatialIndex>(t: Seq<(I, u64)>, c: Seq<nat>, b: int, i: int)
    requires
        within(t, c),
        cut_at(t, c, 0, b),
        0 <= i < t.len(),
        t[i].0.path().len() == c.len(),
    ensures
        i < b,
{
    let e = t[i].0.path();
    assert(e =~= c);
    if i >= b {
        assert(path_le(c.push(0), t[i].0.path()));
        crate::path::lemma_prefix_fork(c, c.push(0));
    }
}

/// What stands between the places of two neighbouring children lies under
/// the first of them.
proof fn lemma_cut_part<I: SpatialIndex>(
    t: Seq<(I, u64)>,
    c: Seq<nat>,
    k: int,
    lo: int,
    hi: int,
    i: int,
)
    requires
        within(t, c),
        0 <= k < I::fanout(),
        cut_at(t, c, k, lo),
        k + 1 < I::fanout() ==> cut_at(t, c, k + 1, hi),
        k + 1 == I::fanout() ==> hi == t.len(),
        lo <= i < hi,
    ensures
        is_prefix(c.push(k as nat), t[i].0.path()),
{
    let e = t[i].0.path();
    lemma_from_child(c, e, k as nat);
    if k + 1 < I::fanout() {
        lemma_before_child(c, e, (k + 1) as nat);
    }
}

/// What lies under a child stands between the place of that child and the
/// place of the next.
proof fn lemma_cut_find<I: SpatialIndex>(
    t: Seq<(I, u64)>,
    c: Seq<nat>,
    lo: int,
    hi: int,
    i: int,
)
    requires
        within(t, c),
        0 <= i < t.len(),
        t[i].0.path().len() > c.len(),
        cut_at(t, c, t[i].0.path()[c.len() as int] as int, lo),
        t[i].0.path()[c.len() as int] + 1 < I::fanout() ==> cut_at(
            t,
            c,
            t[i].0.path()[c.len() as int] as int + 1,
            hi,
        ),
        t[i].0.path()[c.len() as int] + 1 == I::fanout() ==> hi == t.len(),
    ensures
        lo <= i < hi,
{
    let e = t[i].0.path();
    let k = e[c.len() as int];
    crate::path::lemma_child_of(c, e);
    lemma_under_child(c, e, k, k + 1);
    if i < lo {
        lemma_lt_asymmetric(e, c.push(k));
    }
}

/// The place of a child does not come after the place of the next child.
proof fn lemma_cut_order<I: SpatialIndex>(t: Seq<(I, u64)>, c: Seq<nat>, k: int, lo: int, hi: int)
    requires
        0 <= k,
        cut_at(t, c, k, lo),
        cut_at(t, c, k + 1, hi),
    ensures
        lo <= hi,
{
    if hi < lo {
        let e = t[hi].0.path();
        assert(path_lt(e, c.push(k as nat)));
        assert(path_le(c.push((k + 1) as nat), e));
        lemma_under_child(c, c.push(k as nat), k as nat, (k + 1) as nat);
        crate::path::lemma_lt_transitive(e, c.push(k as nat), c.push((k + 1) as nat));
    }
}

/// Calls made at a cell for entries that are processed there are calls
/// for entries that the descent reaches, and each of the entries has its
/// call.
proof fn lemma_visited_here<I: SpatialIndex, G: TestGeometry>(
    t: Seq<(I, u64)>,
    start: nat,
    g: G,
    stop: nat,
    nearest: u64,
    before: Seq<Visit<G>>,
    after: Seq<Visit<G>>,
    count: int,
)
    requires
        0 <= count <= t.len(),
        after.len() == before.len() + count,
        g.admits(nearest),
        forall|i: int|
            0 <= i < count ==> (#[trigger] after[before.len() + i]).id == t[i].1 && after[before.len()
                + i].geom == g,
        forall|i: int|
            0 <= i < count ==> station((#[trigger] t[i]).0.path().len(), start, stop) == start
                && t[i].0.path().len() >= start,
    ensures
        forall|l: int|
            before.len() <= l < after.len() ==> sound_at(t, start, g, stop, nearest, #[trigger] after[l]),
        forall|i: int|
            0 <= i < count ==> #[trigger] found(t, i, start, g, stop, after, before.len() as int),
{
    let from = before.len() as int;
    assert forall|i: int| 0 <= i < count implies #[trigger] stands_for(
        t,
        i,
        start,
        g,
        stop,
        after[from + i],
    ) && reach(g, t[i].0.path(), start, stop, nearest) by {
        let e = t[i].0.path();
        assert(e.subrange(start as int, start as int) =~= Seq::<nat>::empty());
        assert(after[from + i].geom == g);
        assert forall|d: int| start <= d <= station(e.len(), start, stop) implies (
        #[trigger] descend(g, e.subrange(start as int, d))).admits(nearest) by {
            assert(d == start);
        }
    }
    assert forall|l: int| from <= l < after.len() implies sound_at(
        t,
        start,
        g,
        stop,
        nearest,
        #[trigger] after[l],
    ) by {
        let i = l - from;
        assert(stands_for(t, i, start, g, stop, after[from + i]));
    }
    assert forall|i: int| 0 <= i < count implies #[trigger] found(
        t,
        i,
        start,
        g,
        stop,
        after,
        from,
    ) by {
        assert(stands_for(t, i, start, g, stop, after[from + i]));
    }
}

/// A call that the descent from a child made for an entry is a call that
/// the descent from the cell made for it.
proof fn lemma_stands_lift<I: SpatialIndex, G: TestGeometry>(
    t: Seq<(I, u64)>,
    sub: Seq<(I, u64)>,
    i: int,
    q: int,
    start: nat,
    g: G,
    stop: nat,
    v: Visit<G>,
)
    requires
        0 <= i < t.len(),
        0 <= q < sub.len(),
        sub[q] == t[i],
        start < stop,
        t[i].0.path().len() > start,
        stands_for(sub, q, start + 1, g.child(t[i].0.path()[start as int]), stop, v),
    ensures
        stands_for(t, i, start, g, stop, v),
{
    let e = t[i].0.path();
    lemma_descend_step(g, e, start, station(e.len(), start, stop) as int);
}

/// A call for an entry that the descent from a child reaches is a call
/// for an entry that the descent from the cell reaches.
proof fn lemma_sound_lift<I: SpatialIndex, G: TestGeometry>(
    t: Seq<(I, u64)>,
    c: Seq<nat>,
    g: G,
    stop: nat,
    nearest: u64,
    cur: u64,
    k: nat,
    lo: int,
    hi: int,
    v: Visit<G>,
)
    requires
        c.len() < stop,
        g.admits(nearest),
        monotone::<G>(),
        cur <= nearest,
        0 <= lo <= hi <= t.len(),
        forall|i: int| lo <= i < hi ==> is_prefix(c.push(k), (#[trigger] t[i]).0.path()),
        sound_at(t.subrange(lo, hi), c.len() + 1, g.child(k), stop, cur, v),
    ensures
        sound_at(t, c.len(), g, stop, nearest, v),
{
    let start = c.len();
    let sub = t.subrange(lo, hi);
    let gk = g.child(k);
    let q = choose|q: int|
        0 <= q < sub.len() && #[trigger] stands_for(sub, q, start + 1, gk, stop, v) && reach(
            gk,
            sub[q].0.path(),
            start + 1,
            stop,
            cur,
        );
    let i = lo + q;
    let e = t[i].0.path();
    assert(sub[q] == t[i]);
    assert(is_prefix(c.push(k), e));
    assert(e[start as int] == c.push(k)[start as int]);
    lemma_stands_lift(t, sub, i, q, start, g, stop, v);
    lemma_reach_rises(gk, e, start + 1, stop, cur, nearest);
    lemma_reach_step(g, e, start, stop, nearest);
    assert(stands_for(t, i, start, g, stop, v));
}

/// A call that is found for an entry of a child's part is found for the
/// entry among all entries of the cell.
proof fn lemma_found_lift<I: SpatialIndex, G: TestGeometry>(
    t: Seq<(I, u64)>,
    c: Seq<nat>,
    g: G,
    stop: nat,
    k: nat,
    lo: int,
    hi: int,
    i: int,
    log: Seq<Visit<G>>,
    mid: int,
    from: int,
)
    requires
        c.len() < stop,
        0 <= lo <= i < hi <= t.len(),
        t[i].0.path().len() > c.len(),
        t[i].0.path()[c.len() as int] == k,
        0 <= from <= mid,
        found(t.subrange(lo, hi), i - lo, c.len() + 1, g.child(k), stop, log, mid),
    ensures
        found(t, i, c.len(), g, stop, log, from),
{
    let start = c.len();
    let sub = t.subrange(lo, hi);
    let q = i - lo;
    assert(sub[q] == t[i]);
    let l = choose|l: int|
        0 <= l && mid <= l < log.len() && stands_for(
            sub,
            q,
            start + 1,
            g.child(k),
            stop,
            #[trigger] log[l],
        );
    lemma_stands_lift(t, sub, i, q, start, g, stop, log[l]);
}

/// A call that is found in a log is found in every longer log.
proof fn lemma_found_kept<I: SpatialIndex, G: TestGeometry>(
    t: Seq<(I, u64)>,
    i: int,
    start: nat,
    g: G,
    stop: nat,
    log0: Seq<Visit<G>>,
    log1: Seq<Visit<G>>,
    from: int,
)
    requires
        log0.len() <= log1.len(),
        forall|l: int| 0 <= l < log0.len() ==> log1[l] == log0[l],
        found(t, i, start, g, stop, log0, from),
    ensures
        found(t, i, start, g, stop, log1, from),
{
    let l = choose|l: int|
        0 <= l && from <= l < log0.len() && stands_for(t, i, start, g, stop, #[trigger] log0[l]);
    assert(log1[l] == log0[l]);
}

/// What holds of the calls of a cell's descent after some of its children
/// holds after the descent into one more child.
proof fn lemma_child_walked<I: SpatialIndex, G: TestGeometry>(
    t: Seq<(I, u64)>,
    c: Seq<nat>,
    g: G,
    stop: nat,
    nearest: u64,
    cur: u64,
    next: u64,
    k: nat,
    lo: int,
    hi: int,
    log0: Seq<Visit<G>>,
    log1: Seq<Visit<G>>,
    from: int,
    order: Seq<usize>,
    j: int,
)
    requires
        within(t, c),
        c.len() < stop,
        g.admits(nearest),
        monotone::<G>(),
        0 <= lo <= hi <= t.len(),
        forall|i: int| lo <= i < hi ==> is_prefix(c.push(k), (#[trigger] t[i]).0.path()),
        forall|i: int|
            0 <= i < t.len() && (#[trigger] t[i]).0.path().len() > c.len() && t[i].0.path()[c.len() as int]
                == k ==> lo <= i < hi,
        walked(t.subrange(lo, hi), c.len() + 1, g.child(k), stop, cur, next, log0, log1),
        0 <= from <= log0.len(),
        threaded(nearest, log0, from, cur),
        forall|l: int|
            from <= l < log0.len() ==> sound_at(t, c.len(), g, stop, nearest, #[trigger] log0[l]),
        0 <= j < order.len(),
        order[j] == k,
        forall|i: int|
            0 <= i < t.len() && handled(t, order, j, c.len(), i) && #[trigger] reach(
                g,
                t[i].0.path(),
                c.len(),
                stop,
                cur,
            ) ==> found(t, i, c.len(), g, stop, log0, from),
    ensures
        threaded(nearest, log1, from, next),
        forall|l: int|
            from <= l < log1.len() ==> sound_at(t, c.len(), g, stop, nearest, #[trigger] log1[l]),
        forall|i: int|
            0 <= i < t.len() && handled(t, order, j + 1, c.len(), i) && #[trigger] reach(
                g,
                t[i].0.path(),
                c.len(),
                stop,
                next,
            ) ==> found(t, i, c.len(), g, stop, log1, from),
{
    let start = c.len();
    let sub = t.subrange(lo, hi);
    let gk = g.child(k);
    lemma_threaded_joined(nearest, log0, log1, from, cur, next);
    lemma_low_falls(nearest, log0, from, from, log0.len() as int);
    lemma_low_falls(cur, log1, log0.len() as int, log0.len() as int, log1.len() as int);
    assert(next <= cur <= nearest);
    assert forall|l: int| from <= l < log1.len() implies sound_at(
        t,
        start,
        g,
        stop,
        nearest,
        #[trigger] log1[l],
    ) by {
        if l < log0.len() {
            assert(log1[l] == log0[l]);
        } else {
            assert(sound_at(sub, start + 1, gk, stop, cur, log1[l]));
            lemma_sound_lift(t, c, g, stop, nearest, cur, k, lo, hi, log1[l]);
        }
    }
    assert forall|i: int|
        0 <= i < t.len() && handled(t, order, j + 1, start, i) && #[trigger] reach(
            g,
            t[i].0.path(),
            start,
            stop,
            next,
        ) implies found(t, i, start, g, stop, log1, from) by {
        let e = t[i].0.path();
        if handled(t, order, j, start, i) {
            lemma_reach_rises(g, e, start, stop, next, cur);
            assert(found(t, i, start, g, stop, log0, from));
            lemma_found_kept(t, i, start, g, stop, log0, log1, from);
        } else {
            let w = choose|w: int|
                0 <= w < j + 1 && w < order.len() && #[trigger] order[w] == e[start as int];
            if w < j {
                assert(seen_child(order, j, e[start as int]));
            }
            assert(e[start as int] == k);
            let q = i - lo;
            assert(sub[q] == t[i]);
            lemma_reach_step(g, e, start, stop, next);
            assert(reach(gk, sub[q].0.path(), start + 1, stop, next));
            assert(found(sub, q, start + 1, gk, stop, log1, log0.len() as int));
            lemma_found_lift(t, c, g, stop, k, lo, hi, i, log1, log0.len() as int, from);
        }
    }
}

/// The place that parts the entries before child `k` of the cell with
/// path `c` from the others.
pub open spec fn cut_position<I: SpatialIndex>(t: Seq<(I, u64)>, c: Seq<nat>, k: int) -> int {
    choose|b: int| cut_at(t, c, k, b)
}

/// The entries that lie in the cell with path `c` itself.  In sorted
/// entries that all lie in the cell or below it, they come first.
pub open spec fn head_of<I: SpatialIndex>(t: Seq<(I, u64)>, c: Seq<nat>) -> Seq<(I, u64)> {
    if I::fanout() == 0 {
        t
    } else {
        t.subrange(0, cut_position(t, c, 0))
    }
}

/// The entries that lie in child `k` of the cell with path `c` or below
/// it.  In sorted entries they stand together.
pub open spec fn part_of<I: SpatialIndex>(t: Seq<(I, u64)>, c: Seq<nat>, k: int) -> Seq<(I, u64)> {
    t.subrange(
        cut_position(t, c, k),
        if k + 1 < I::fanout() {
            cut_position(t, c, k + 1)
        } else {
            t.len() as int
        },
    )
}

/// How far a log goes along with a descent: whether the calls from some
/// place on are the calls that the descent makes, the place after the last
/// of them, and the cutoff that they leave.
pub struct Replay {
    /// The log holds the calls of the descent, in its order.
    pub ok: bool,
    /// The place after the last call of the descent.
    pub next: int,
    /// The cutoff after the last call.
    pub cutoff: u64,
}

/// The calls for all of `part` in turn, with the geometry `g`, against the
/// log from place `at` on.
pub open spec fn replay_here<I: SpatialIndex, G: TestGeometry>(
    part: Seq<(I, u64)>,
    g: G,
    nearest: u64,
    log: Seq<Visit<G>>,
    at: int,
) -> Replay {
    Replay {
        ok: at + part.len() <= log.len() && forall|i: int|
            0 <= i < part.len() ==> (#[trigger] log[at + i]).id == part[i].1 && log[at + i].geom == g
                && log[at + i].nearest == low(nearest, log, at, at + i),
        next: at + part.len(),
        cutoff: low(nearest, log, at, at + part.len()),
    }
}

/// The descent from the cell with path `c` and geometry `g` through the
/// sorted entries `t`, against the log from place `at` on: no call if
/// there is no entry or the geometry turns the cutoff away; the calls for
/// all entries where the descent stops; else the calls for the entries in
/// the cell itself and then the descents into the children, in the order
/// that the geometry gives.
pub open spec fn replay<I: SpatialIndex, G: TestGeometry>(
    t: Seq<(I, u64)>,
    c: Seq<nat>,
    g: G,
    stop: nat,
    nearest: u64,
    log: Seq<Visit<G>>,
    at: int,
) -> Replay
    decreases stop - c.len(), I::fanout() + 1,
{
    if t.len() == 0 || !g.admits(nearest) {
        Replay { ok: true, next: at, cutoff: nearest }
    } else if c.len() >= stop {
        replay_here(t, g, nearest, log, at)
    } else {
        replay_children(t, c, g, stop, nearest, log, at, I::fanout() as int)
    }
}

/// The calls for the entries in the cell itself and the descents into the
/// first `j` children in the geometry's order.
pub open spec fn replay_children<I: SpatialIndex, G: TestGeometry>(
    t: Seq<(I, u64)>,
    c: Seq<nat>,
    g: G,
    stop: nat,
    nearest: u64,
    log: Seq<Visit<G>>,
    at: int,
    j: int,
) -> Replay
    decreases stop - c.len(), j,
{
    if c.len() >= stop || j <= 0 || j > I::fanout() {
        replay_here(head_of(t, c), g, nearest, log, at)
    } else {
        let before = replay_children(t, c, g, stop, nearest, log, at, j - 1);
        if !before.ok {
            before
        } else {
            let k = g.order()[j - 1] as nat;
            replay(part_of(t, c, k as int), c.push(k), g.child(k), stop, before.cutoff, log, before.next)
        }
    }
}

/// Sorted entries are parted before a child in one place only.
proof fn lemma_cut_unique<I: SpatialIndex>(t: Seq<(I, u64)>, c: Seq<nat>, k: int, b: int)
    requires
        cut_at(t, c, k, b),
    ensures
        cut_position(t, c, k) == b,
{
    let other = cut_position(t, c, k);
    assert(cut_at(t, c, k, other));
    if other < b {
        assert(path_lt(t[other].0.path(), c.push(k as nat)));
    }
    if b < other {
        assert(path_lt(t[b].0.path(), c.push(k as nat)));
    }
}

/// The calls for a part, once in a log, are in every log that agrees with
/// it up to the last of them.
proof fn lemma_replay_here_same<I: SpatialIndex, G: TestGeometry>(
    part: Seq<(I, u64)>,
    g: G,
    nearest: u64,
    log: Seq<Visit<G>>,
    other: Seq<Visit<G>>,
    at: int,
)
    requires
        0 <= at,
        replay_here(part, g, nearest, log, at).ok,
        at + part.len() <= other.len(),
        forall|l: int| 0 <= l < at + part.len() ==> other[l] == log[l],
    ensures
        replay_here(part, g, nearest, other, at) == replay_here(part, g, nearest, log, at),
{
    lemma_low_same(nearest, log, other, at, at + part.len());
    assert forall|i: int| 0 <= i < part.len() implies (#[trigger] other[at + i]).id == part[i].1
        && other[at + i].geom == g && other[at + i].nearest == low(nearest, other, at, at + i) by {
        assert(other[at + i] == log[at + i]);
        lemma_low_same(nearest, log, other, at, at + i);
    }
}

/// A log that goes along with a descent does so whatever follows the calls
/// of the descent.
pub proof fn lemma_replay_same<I: SpatialIndex, G: TestGeometry>(
    t: Seq<(I, u64)>,
    c: Seq<nat>,
    g: G,
    stop: nat,
    nearest: u64,
    log: Seq<Visit<G>>,
    other: Seq<Visit<G>>,
    at: int,
)
    requires
        0 <= at,
        replay(t, c, g, stop, nearest, log, at).ok,
        replay(t, c, g, stop, nearest, log, at).next <= other.len(),
        forall|l: int|
            0 <= l < replay(t, c, g, stop, nearest, log, at).next ==> other[l] == log[l],
    ensures
        replay(t, c, g, stop, nearest, other, at) == replay(t, c, g, stop, nearest, log, at),
        at <= replay(t, c, g, stop, nearest, log, at).next,
    decreases stop - c.len(), I::fanout() + 1,
{
    if t.len() == 0 || !g.admits(nearest) {
    } else if c.len() >= stop {
        lemma_replay_here_same(t, g, nearest, log, other, at);
    } else {
        lemma_replay_children_same(t, c, g, stop, nearest, log, other, at, I::fanout() as int);
    }
}

/// As [`lemma_replay_same`], for the descents into the first `j` children.
pub proof fn lemma_replay_children_same<I: SpatialIndex, G: TestGeometry>(
    t: Seq<(I, u64)>,
    c: Seq<nat>,
    g: G,
    stop: nat,
    nearest: u64,
    log: Seq<Visit<G>>,
    other: Seq<Visit<G>>,
    at: int,
    j: int,
)
    requires
        0 <= at,
        replay_children(t, c, g, stop, nearest, log, at, j).ok,
        replay_children(t, c, g, stop, nearest, log, at, j).next <= other.len(),
        forall|l: int|
            0 <= l < replay_children(t, c, g, stop, nearest, log, at, j).next ==> other[l] == log[l],
    ensures
        replay_children(t, c, g, stop, nearest, other, at, j) == replay_children(
            t,
            c,
            g,
            stop,
            nearest,
            log,
            at,
            j,
        ),
        at <= replay_children(t, c, g, stop, nearest, log, at, j).next,
    decreases stop - c.len(), j,
{
    if c.len() >= stop || j <= 0 || j > I::fanout() {
        lemma_replay_here_same(head_of(t, c), g, nearest, log, other, at);
    } else {
        let before = replay_children(t, c, g, stop, nearest, log, at, j - 1);
        let k = g.order()[j - 1] as nat;
        if before.ok {
            lemma_replay_children_next(t, c, g, stop, nearest, log, at, j - 1);
            lemma_replay_next(
                part_of(t, c, k as int),
                c.push(k),
                g.child(k),
                stop,
                before.cutoff,
                log,
                before.next,
            );
            lemma_replay_children_same(t, c, g, stop, nearest, log, other, at, j - 1);
            lemma_replay_same(
                part_of(t, c, k as int),
                c.push(k),
                g.child(k),
                stop,
                before.cutoff,
                log,
                other,
                before.next,
            );
        }
    }
}

/// The calls of a descent follow the place where it starts.
pub proof fn lemma_replay_next<I: SpatialIndex, G: TestGeometry>(
    t: Seq<(I, u64)>,
    c: Seq<nat>,
    g: G,
    stop: nat,
    nearest: u64,
    log: Seq<Visit<G>>,
    at: int,
)
    requires
        replay(t, c, g, stop, nearest, log, at).ok,
    ensures
        at <= replay(t, c, g, stop, nearest, log, at).next,
    decreases stop - c.len(), I::fanout() + 1,
{
    if t.len() == 0 || !g.admits(nearest) {
    } else if c.len() >= stop {
    } else {
        lemma_replay_children_next(t, c, g, stop, nearest, log, at, I::fanout() as int);
    }
}

/// As [`lemma_replay_next`], for the descents into the first `j` children.
pub proof fn lemma_replay_children_next<I: SpatialIndex, G: TestGeometry>(
    t: Seq<(I, u64)>,
    c: Seq<nat>,
    g: G,
    stop: nat,
    nearest: u64,
    log: Seq<Visit<G>>,
    at: int,
    j: int,
)
    requires
        replay_children(t, c, g, stop, nearest, log, at, j).ok,
    ensures
        at <= replay_children(t, c, g, stop, nearest, log, at, j).next,
    decreases stop - c.len(), j,
{
    if c.len() >= stop || j <= 0 || j > I::fanout() {
    } else {
        let before = replay_children(t, c, g, stop, nearest, log, at, j - 1);
        let k = g.order()[j - 1] as nat;
        if before.ok {
            lemma_replay_children_next(t, c, g, stop, nearest, log, at, j - 1);
            lemma_replay_next(
                part_of(t, c, k as int),
                c.push(k),
                g.child(k),
                stop,
                before.cutoff,
                log,
                before.next,
            );
        }
    }
}

/// The calls of a descent are threaded: each was handed the cutoff that
/// the calls before it had left, and the descent ends with the cutoff that
/// the last call leaves.
pub proof fn lemma_replay_threaded<I: SpatialIndex, G: TestGeometry>(
    t: Seq<(I, u64)>,
    c: Seq<nat>,
    g: G,
    stop: nat,
    nearest: u64,
    log: Seq<Visit<G>>,
    at: int,
)
    requires
        0 <= at,
        replay(t, c, g, stop, nearest, log, at).ok,
    ensures
        at <= replay(t, c, g, stop, nearest, log, at).next,
        forall|l: int|
            at <= l < replay(t, c, g, stop, nearest, log, at).next ==> (#[trigger] log[l]).nearest
                == low(nearest, log, at, l),
        replay(t, c, g, stop, nearest, log, at).cutoff == low(
            nearest,
            log,
            at,
            replay(t, c, g, stop, nearest, log, at).next,
        ),
    decreases stop - c.len(), I::fanout() + 1,
{
    if t.len() == 0 || !g.admits(nearest) {
    } else if c.len() >= stop {
        lemma_replay_here_threaded(t, g, nearest, log, at);
    } else {
        lemma_replay_children_threaded(t, c, g, stop, nearest, log, at, I::fanout() as int);
    }
}

/// As [`lemma_replay_threaded`], for the calls at one cell.
proof fn lemma_replay_here_threaded<I: SpatialIndex, G: TestGeometry>(
    part: Seq<(I, u64)>,
    g: G,
    nearest: u64,
    log: Seq<Visit<G>>,
    at: int,
)
    requires
        0 <= at,
        replay_here(part, g, nearest, log, at).ok,
    ensures
        forall|l: int|
            at <= l < at + part.len() ==> (#[trigger] log[l]).nearest == low(nearest, log, at, l),
{
    assert forall|l: int| at <= l < at + part.len() implies (#[trigger] log[l]).nearest == low(
        nearest,
        log,
        at,
        l,
    ) by {
        let i = l - at;
        assert(log[at + i].nearest == low(nearest, log, at, at + i));
    }
}

/// As [`lemma_replay_threaded`], for the descents into the first `j`
/// children.
pub proof fn lemma_replay_children_threaded<I: SpatialIndex, G: TestGeometry>(
    t: Seq<(I, u64)>,
    c: Seq<nat>,
    g: G,
    stop: nat,
    nearest: u64,
    log: Seq<Visit<G>>,
    at: int,
    j: int,
)
    requires
        0 <= at,
        replay_children(t, c, g, stop, nearest, log, at, j).ok,
    ensures
        at <= replay_children(t, c, g, stop, nearest, log, at, j).next,
        forall|l: int|
            at <= l < replay_children(t, c, g, stop, nearest, log, at, j).next ==> (
            #[trigger] log[l]).nearest == low(nearest, log, at, l),
        replay_children(t, c, g, stop, nearest, log, at, j).cutoff == low(
            nearest,
            log,
            at,
            replay_children(t, c, g, stop, nearest, log, at, j).next,
        ),
    decreases stop - c.len(), j,
{
    if c.len() >= stop || j <= 0 || j > I::fanout() {
        lemma_replay_here_threaded(head_of(t, c), g, nearest, log, at);
    } else {
        let before = replay_children(t, c, g, stop, nearest, log, at, j - 1);
        let k = g.order()[j - 1] as nat;
        if before.ok {
            lemma_replay_children_threaded(t, c, g, stop, nearest, log, at, j - 1);
            let sub = part_of(t, c, k as int);
            lemma_replay_threaded(sub, c.push(k), g.child(k), stop, before.cutoff, log, before.next);
            let last = replay(sub, c.push(k), g.child(k), stop, before.cutoff, log, before.next);
            lemma_low_joined(nearest, log, at, before.next, last.next);
            assert forall|l: int| at <= l < last.next implies (#[trigger] log[l]).nearest == low(
                nearest,
                log,
                at,
                l,
            ) by {
                if l >= before.next {
                    lemma_low_joined(nearest, log, at, before.next, l);
                }
            }
        }
    }
}

/// The calls of `visit_all` are the calls for all of the part.
proof fn lemma_replayed_here<I: SpatialIndex, G: TestGeometry>(
    part: Seq<(I, u64)>,
    g: G,
    nearest: u64,
    r: u64,
    before: Seq<Visit<G>>,
    after: Seq<Visit<G>>,
)
    requires
        after.len() == before.len() + part.len(),
        forall|i: int|
            0 <= i < part.len() ==> (#[trigger] after[before.len() + i]).id == part[i].1
                && after[before.len() + i].geom == g,
        threaded(nearest, after, before.len() as int, r),
    ensures
        replay_here(part, g, nearest, after, before.len() as int) == (Replay {
            ok: true,
            next: after.len() as int,
            cutoff: r,
        }),
{
    let at = before.len() as int;
    assert forall|i: int| 0 <= i < part.len() implies (#[trigger] after[at + i]).id == part[i].1
        && after[at + i].geom == g && after[at + i].nearest == low(nearest, after, at, at + i) by {}
}

/// Finds, by bisection, the places that part the sorted entries among the
/// children of a cell: in place `k` the number of entries that come before
/// child `k`, and in the last place the number of all entries.
pub fn split_cell<I: SpatialIndex>(tree: &[(I, u64)], cell: &I, children: &Vec<I>) -> (bounds:
    Positions)
    requires
        sorted(tree@),
        forall|q: int|
            0 <= q < children@.len() ==> (#[trigger] children@[q]).path() == cell.path().push(
                q as nat,
            ),
    ensures
        positions_held(bounds).len() == children@.len() + 1,
        positions_held(bounds)[children@.len() as int] == tree@.len(),
        forall|q: int|
            0 <= q < children@.len() ==> cut_at(
                tree@,
                cell.path(),
                q,
                (#[trigger] positions_held(bounds)[q]) as int,
            ),
{
    let f = children.len();
    let mut bounds = positions_new();
    let mut k: usize = 0;
    while k < f
        invariant
            sorted(tree@),
            f == children@.len(),
            k <= f,
            positions_held(bounds).len() == k,
            forall|q: int|
                0 <= q < f ==> (#[trigger] children@[q]).path() == cell.path().push(q as nat),
            forall|q: int|
                0 <= q < k ==> cut_at(
                    tree@,
                    cell.path(),
                    q,
                    (#[trigger] positions_held(bounds)[q]) as int,
                ),
        decreases f - k,
    {
        let b = lower_bound(tree, &children[k]);
        let ghost held = positions_held(bounds);
        positions_push(&mut bounds, b);
        proof {
            assert forall|q: int| 0 <= q < k + 1 implies cut_at(
                tree@,
                cell.path(),
                q,
                (#[trigger] positions_held(bounds)[q]) as int,
            ) by {
                if q < k {
                    assert(positions_held(bounds)[q] == held[q]);
                }
            }
        }
        k += 1;
    }
    let ghost held = positions_held(bounds);
    positions_push(&mut bounds, tree.len());
    proof {
        assert forall|q: int| 0 <= q < f implies cut_at(
            tree@,
            cell.path(),
            q,
            (#[trigger] positions_held(bounds)[q]) as int,
        ) by {
            assert(positions_held(bounds)[q] == held[q]);
        }
    }
    bounds
}

/// What the kernel has to know of a cell that it descends into: the
/// children of the cell, and the places that part the entries among them.
pub open spec fn parted<I: SpatialIndex>(
    t: Seq<(I, u64)>,
    c: Seq<nat>,
    children: Seq<I>,
    bounds: Seq<usize>,
) -> bool {
    &&& children.len() == I::fanout()
    &&& bounds.len() == I::fanout() + 1
    &&& bounds[I::fanout() as int] == t.len()
    &&& forall|q: int| 0 <= q < children.len() ==> (#[trigger] children[q]).path() == c.push(q as nat)
    &&& forall|q: int| 0 <= q < I::fanout() ==> cut_at(t, c, q, (#[trigger] bounds[q]) as int)
}

/// The state of a descent into a cell after the calls for the entries in
/// the cell itself and the descents into the first `j` children.
pub open spec fn descending<I: SpatialIndex, G: TestGeometry>(
    t: Seq<(I, u64)>,
    c: Seq<nat>,
    g: G,
    stop: nat,
    nearest: u64,
    cur: u64,
    before: Seq<Visit<G>>,
    log: Seq<Visit<G>>,
    j: int,
) -> bool {
    &&& before.len() <= log.len()
    &&& forall|l: int| 0 <= l < before.len() ==> log[l] == before[l]
    &&& threaded(nearest, log, before.len() as int, cur)
    &&& forall|l: int|
        before.len() <= l < log.len() ==> sound_at(t, c.len(), g, stop, nearest, #[trigger] log[l])
    &&& forall|i: int|
        0 <= i < t.len() && handled(t, g.order(), j, c.len(), i) && #[trigger] reach(
            g,
            t[i].0.path(),
            c.len(),
            stop,
            cur,
        ) ==> found(t, i, c.len(), g, stop, log, before.len() as int)
    &&& replay_children(t, c, g, stop, nearest, log, before.len() as int, j) == (Replay {
        ok: true,
        next: log.len() as int,
        cutoff: cur,
    })
}

/// The part of the entries under child `k` is ready for the descent into
/// that child.
proof fn lemma_part_ready<I: SpatialIndex>(
    t: Seq<(I, u64)>,
    c: Seq<nat>,
    children: Seq<I>,
    bounds: Seq<usize>,
    k: int,
)
    requires
        sorted(t),
        within(t, c),
        parted(t, c, children, bounds),
        0 <= k < I::fanout(),
    ensures
        0 <= bounds[k] <= bounds[k + 1] <= t.len(),
        sorted(t.subrange(bounds[k] as int, bounds[k + 1] as int)),
        within(t.subrange(bounds[k] as int, bounds[k + 1] as int), children[k].path()),
        t.subrange(bounds[k] as int, bounds[k + 1] as int) == part_of(t, c, k),
        forall|x: int|
            bounds[k] <= x < bounds[k + 1] ==> is_prefix(c.push(k as nat), (#[trigger] t[x]).0.path()),
        forall|x: int|
            0 <= x < t.len() && (#[trigger] t[x]).0.path().len() > c.len() && t[x].0.path()[c.len() as int]
                == k ==> bounds[k] <= x < bounds[k + 1],
{
    let lo = bounds[k] as int;
    let hi = bounds[k + 1] as int;
    assert(cut_at(t, c, k, lo));
    lemma_cut_unique(t, c, k, lo);
    if k + 1 < I::fanout() {
        assert(cut_at(t, c, k + 1, hi));
        lemma_cut_order(t, c, k, lo, hi);
        lemma_cut_unique(t, c, k + 1, hi);
    }
    crate::order::lemma_sorted_subrange(t, lo, hi);
    assert forall|x: int| lo <= x < hi implies is_prefix(
        c.push(k as nat),
        (#[trigger] t[x]).0.path(),
    ) by {
        lemma_cut_part(t, c, k, lo, hi, x);
    }
    assert forall|x: int|
        0 <= x < t.len() && (#[trigger] t[x]).0.path().len() > c.len() && t[x].0.path()[c.len() as int]
            == k implies lo <= x < hi by {
        lemma_cut_find(t, c, lo, hi, x);
    }
    let sub = t.subrange(lo, hi);
    assert forall|x: int| 0 <= x < sub.len() implies is_prefix(
        children[k].path(),
        (#[trigger] sub[x]).0.path(),
    ) && turns_below(sub[x].0.path(), I::fanout()) by {
        assert(sub[x] == t[lo + x]);
    }
    assert(sub =~= part_of(t, c, k));
}

/// After the descent into the child in place `j` of the order, the state
/// of the descent into the cell is that after `j + 1` children.
proof fn lemma_descended<I: SpatialIndex, G: TestGeometry>(
    t: Seq<(I, u64)>,
    c: Seq<nat>,
    g: G,
    stop: nat,
    nearest: u64,
    cur: u64,
    next: u64,
    k: nat,
    lo: int,
    hi: int,
    before: Seq<Visit<G>>,
    log0: Seq<Visit<G>>,
    log1: Seq<Visit<G>>,
    j: int,
)
    requires
        within(t, c),
        c.len() < stop,
        g.admits(nearest),
        monotone::<G>(),
        0 <= lo <= hi <= t.len(),
        t.subrange(lo, hi) == part_of(t, c, k as int),
        forall|i: int| lo <= i < hi ==> is_prefix(c.push(k), (#[trigger] t[i]).0.path()),
        forall|i: int|
            0 <= i < t.len() && (#[trigger] t[i]).0.path().len() > c.len() && t[i].0.path()[c.len() as int]
                == k ==> lo <= i < hi,
        0 <= j < g.order().len(),
        j < I::fanout(),
        g.order()[j] == k,
        descending(t, c, g, stop, nearest, cur, before, log0, j),
        walked(t.subrange(lo, hi), c.len() + 1, g.child(k), stop, cur, next, log0, log1),
        replay(t.subrange(lo, hi), c.push(k), g.child(k), stop, cur, log1, log0.len() as int) == (
        Replay { ok: true, next: log1.len() as int, cutoff: next }),
    ensures
        descending(t, c, g, stop, nearest, next, before, log1, j + 1),
{
    let from = before.len() as int;
    lemma_child_walked(
        t,
        c,
        g,
        stop,
        nearest,
        cur,
        next,
        k,
        lo,
        hi,
        log0,
        log1,
        from,
        g.order(),
        j,
    );
    assert forall|l: int| 0 <= l < before.len() implies log1[l] == before[l] by {
        assert(log0[l] == before[l]);
    }
    lemma_replay_children_same(t, c, g, stop, nearest, log0, log1, from, j);
}

/// When all children have been descended into, the descent into the cell
/// is done.
proof fn lemma_descent_done<I: SpatialIndex, G: TestGeometry>(
    t: Seq<(I, u64)>,
    c: Seq<nat>,
    g: G,
    stop: nat,
    nearest: u64,
    cur: u64,
    before: Seq<Visit<G>>,
    log: Seq<Visit<G>>,
)
    requires
        within(t, c),
        c.len() < stop,
        g.admits(nearest),
        t.len() > 0,
        is_order(g.order(), I::fanout()),
        descending(t, c, g, stop, nearest, cur, before, log, I::fanout() as int),
    ensures
        walked(t, c.len(), g, stop, nearest, cur, before, log),
        replay(t, c, g, stop, nearest, log, before.len() as int) == (Replay {
            ok: true,
            next: log.len() as int,
            cutoff: cur,
        }),
{
    let start = c.len();
    let from = before.len() as int;
    let order = g.order();
    assert forall|i: int| 0 <= i < t.len() && #[trigger] reach(
        g,
        t[i].0.path(),
        start,
        stop,
        cur,
    ) implies found(t, i, start, g, stop, log, from) by {
        let e = t[i].0.path();
        if e.len() > start {
            let k = e[start as int];
            assert(k < I::fanout());
            assert(names(order, k as int));
            let q = choose|q: int| 0 <= q < order.len() && #[trigger] order[q] == k;
            assert(seen_child(order, I::fanout() as int, k));
        }
        assert(handled(t, order, I::fanout() as int, start, i));
    }
}

/// After the calls for the entries in the cell itself, the state of the
/// descent into the cell is that before the first child.
proof fn lemma_head_visited<I: SpatialIndex, G: TestGeometry>(
    t: Seq<(I, u64)>,
    c: Seq<nat>,
    g: G,
    children: Seq<I>,
    bounds: Seq<usize>,
    stop: nat,
    nearest: u64,
    cur: u64,
    before: Seq<Visit<G>>,
    log: Seq<Visit<G>>,
)
    requires
        within(t, c),
        c.len() < stop,
        g.admits(nearest),
        parted(t, c, children, bounds),
        log.len() == before.len() + bounds[0],
        forall|l: int| 0 <= l < before.len() ==> log[l] == before[l],
        forall|i: int|
            0 <= i < bounds[0] ==> (#[trigger] log[before.len() + i]).id == t[i].1 && log[before.len()
                + i].geom == g,
        threaded(nearest, log, before.len() as int, cur),
    ensures
        descending(t, c, g, stop, nearest, cur, before, log, 0),
{
    let start = c.len();
    let from = before.len() as int;
    let b0 = bounds[0] as int;
    if I::fanout() == 0 {
        assert forall|i: int| 0 <= i < t.len() implies (#[trigger] t[i]).0.path().len()
            == start by {
            let e = t[i].0.path();
            if e.len() > 0 {
                assert(e[0] < I::fanout());
            }
        }
    } else {
        assert(cut_at(t, c, 0, b0));
        lemma_cut_unique(t, c, 0, b0);
        assert forall|i: int| 0 <= i < b0 implies (#[trigger] t[i]).0.path().len() == start by {
            lemma_cut_head(t, c, b0, i);
        }
    }
    let head = t.subrange(0, b0);
    assert(head =~= head_of(t, c));
    assert forall|i: int| 0 <= i < head.len() implies (#[trigger] log[before.len() + i]).id
        == head[i].1 && log[before.len() + i].geom == g by {
        assert(head[i] == t[i]);
    }
    lemma_replayed_here(head, g, nearest, cur, before, log);
    lemma_visited_here(t, start, g, stop, nearest, before, log, b0);
    assert forall|i: int|
        0 <= i < t.len() && handled(t, g.order(), 0, start, i) && #[trigger] reach(
            g,
            t[i].0.path(),
            start,
            stop,
            cur,
        ) implies found(t, i, start, g, stop, log, from) by {
        if I::fanout() > 0 {
            lemma_cut_root(t, c, b0, i);
        }
        assert(found(t, i, start, g, stop, log, from));
    }
}

/// The test kernel.  With the geometry `geom` of `cell`, it descends
/// through the entries of `tree`, all of which lie in `cell`: it skips the
/// cell if the geometry turns `nearest` away; it hands every entry to the
/// visitor at the cell where the entry lies, or at the cell where the
/// descent stops if that comes first; and it visits the children of a cell in
/// the order that the geometry gives.  It returns the cutoff that the
/// visitor's answers have left.
pub fn test_impl<I: SpatialIndex, G: TestGeometry, V: Visitor<G>>(
    tree: &[(I, u64)],
    cell: I,
    geom: &G,
    nearest: u64,
    max_depth: Option<u32>,
    visitor: &mut V,
    context: &V::Context,
) -> (r: u64)
    requires
        sorted(tree@),
        within(tree@, cell.path()),
        I::fanout() == G::fanout(),
        monotone::<G>(),
        old(visitor).ready(context),
    ensures
        final(visitor).ready(context),
        walked(
            tree@,
            cell.path().len(),
            *geom,
            stop_depth(max_depth, I::depth_limit()),
            nearest,
            r,
            old(visitor).log(),
            final(visitor).log(),
        ),
        replay(
            tree@,
            cell.path(),
            *geom,
            stop_depth(max_depth, I::depth_limit()),
            nearest,
            final(visitor).log(),
            old(visitor).log().len() as int,
        ) == (Replay { ok: true, next: final(visitor).log().len() as int, cutoff: r }),
    decreases I::depth_limit() - cell.path().len(), 1int,
{
    let ghost t = tree@;
    let ghost start = cell.path().len();
    let ghost g = *geom;
    let ghost stop = stop_depth(max_depth, I::depth_limit());
    let ghost before = visitor.log();
    if tree.len() == 0 {
        return nearest;
    }
    if !geom.should_test(nearest) {
        proof {
            assert forall|i: int| 0 <= i < t.len() implies !#[trigger] reach(
                g,
                t[i].0.path(),
                start,
                stop,
                nearest,
            ) by {
                let e = t[i].0.path();
                assert(e.subrange(start as int, start as int) =~= Seq::<nat>::empty());
                if reach(g, e, start, stop, nearest) {
                    assert(descend(g, e.subrange(start as int, start as int)).admits(nearest));
                }
            }
        }
        return nearest;
    }
    let depth = cell.depth();
    let at_limit = match max_depth {
        Some(m) => depth >= m,
        None => false,
    };
    if at_limit {
        let r = visit_all(tree, geom, nearest, visitor, context);
        proof {
            lemma_visited_here(t, start, g, stop, nearest, before, visitor.log(), t.len() as int);
            lemma_replayed_here(t, g, nearest, r, before, visitor.log());
        }
        return r;
    }
    match cell.subdivide() {
        None => {
            let r = visit_all(tree, geom, nearest, visitor, context);
            proof {
                lemma_visited_here(t, start, g, stop, nearest, before, visitor.log(), t.len() as int);
                lemma_replayed_here(t, g, nearest, r, before, visitor.log());
            }
            r
        },
        Some(children) => {
            let bounds = split_cell(tree, &cell, &children);
            let head = slice_subrange(tree, 0, positions_get(&bounds, 0));
            let cur = visit_all(head, geom, nearest, visitor, context);
            proof {
                assert forall|i: int| 0 <= i < positions_held(bounds)[0] implies (#[trigger] visitor.log()[before.len()
                    + i]).id == t[i].1 && visitor.log()[before.len() + i].geom == g by {
                    assert(head@[i] == t[i]);
                }
                lemma_head_visited(
                    t,
                    cell.path(),
                    g,
                    children@,
                    positions_held(bounds),
                    stop,
                    nearest,
                    cur,
                    before,
                    visitor.log(),
                );
            }
            test_children(
                tree,
                cell,
                &children,
                &bounds,
                geom,
                cur,
                max_depth,
                visitor,
                context,
                Ghost(nearest),
                Ghost(before),
            )
        },
    }
}

/// The descents into the children of `cell`, in the order that the
/// geometry gives, after the calls for the entries in the cell itself.
fn test_children<I: SpatialIndex, G: TestGeometry, V: Visitor<G>>(
    tree: &[(I, u64)],
    cell: I,
    children: &Vec<I>,
    bounds: &Positions,
    geom: &G,
    reached: u64,
    max_depth: Option<u32>,
    visitor: &mut V,
    context: &V::Context,
    Ghost(nearest): Ghost<u64>,
    Ghost(before): Ghost<Seq<Visit<G>>>,
) -> (r: u64)
    requires
        sorted(tree@),
        within(tree@, cell.path()),
        tree@.len() > 0,
        I::fanout() == G::fanout(),
        monotone::<G>(),
        geom.admits(nearest),
        cell.path().len() < stop_depth(max_depth, I::depth_limit()),
        parted(tree@, cell.path(), children@, positions_held(*bounds)),
        old(visitor).ready(context),
        descending(
            tree@,
            cell.path(),
            *geom,
            stop_depth(max_depth, I::depth_limit()),
            nearest,
            reached,
            before,
            old(visitor).log(),
            0,
        ),
    ensures
        final(visitor).ready(context),
        walked(
            tree@,
            cell.path().len(),
            *geom,
            stop_depth(max_depth, I::depth_limit()),
            nearest,
            r,
            before,
            final(visitor).log(),
        ),
        replay(
            tree@,
            cell.path(),
            *geom,
            stop_depth(max_depth, I::depth_limit()),
            nearest,
            final(visitor).log(),
            before.len() as int,
        ) == (Replay { ok: true, next: final(visitor).log().len() as int, cutoff: r }),
    decreases I::depth_limit() - cell.path().len(), 0int,
{
    let ghost t = tree@;
    let ghost c = cell.path();
    let ghost g = *geom;
    let ghost stop = stop_depth(max_depth, I::depth_limit());
    let parts = geom.subdivide();
    let order = geom.test_order();
    let mut cur = reached;
    let mut j: usize = 0;
    while j < order.len()
        invariant
            t == tree@,
            c == cell.path(),
            g == *geom,
            stop == stop_depth(max_depth, I::depth_limit()),
            sorted(t),
            within(t, c),
            c.len() < stop,
            c.len() < I::depth_limit(),
            g.admits(nearest),
            monotone::<G>(),
            I::fanout() == G::fanout(),
            order@ == g.order(),
            is_order(order@, I::fanout()),
            parted(t, c, children@, positions_held(*bounds)),
            parts@.len() == I::fanout(),
            forall|q: int| 0 <= q < parts@.len() ==> #[trigger] parts@[q] == g.child(q as nat),
            j <= order@.len(),
            visitor.ready(context),
            descending(t, c, g, stop, nearest, cur, before, visitor.log(), j as int),
        decreases order@.len() - j,
    {
        let i = order[j];
        let ghost log0 = visitor.log();
        proof {
            lemma_part_ready(t, c, children@, positions_held(*bounds), i as int);
        }
        let lo = positions_get(bounds, i);
        let hi = positions_get(bounds, i + 1);
        let sub = slice_subrange(tree, lo, hi);
        let next = test_impl(sub, children[i], &parts[i], cur, max_depth, visitor, context);
        proof {
            lemma_descended(
                t,
                c,
                g,
                stop,
                nearest,
                cur,
                next,
                i as nat,
                lo as int,
                hi as int,
                before,
                log0,
                visitor.log(),
                j as int,
            );
        }
        cur = next;
        j += 1;
    }
    proof {
        lemma_descent_done(t, c, g, stop, nearest, cur, before, visitor.log());
    }
    cur
}

} // verus!
