//! The two visitors that the queries hand to the test kernel, and what
//! their results mean.

use crate::geometry::{TestGeometry, UNBOUNDED};
use crate::index::SpatialIndex;
use crate::order::ids_strictly_ascending;
use crate::seen::seen_insert;
use crate::walk::{
    descend, found, lemma_low_falls, low, reach, replay, sound_at, stands_for, station, walked,
    Visit, Visitor,
};
use rustc_hash::FxHashSet;
use vstd::prelude::*;

verus! {

/// Object `id` has an entry that a descent from the root with geometry `g`
/// reaches with cutoff `n`.
pub open spec fn admitted<I: SpatialIndex, G: TestGeometry>(
    t: Seq<(I, u64)>,
    g: G,
    stop: nat,
    n: u64,
    id: u64,
) -> bool {
    exists|i: int| 0 <= i < t.len() && (#[trigger] t[i]).1 == id && reach(g, t[i].0.path(), 0, stop, n)
}

/// The result of a test: the objects with an entry that the descent
/// reaches, each once, in ascending order.
pub open spec fn test_result<I: SpatialIndex, G: TestGeometry>(
    t: Seq<(I, u64)>,
    g: G,
    stop: nat,
    r: Seq<u64>,
) -> bool {
    &&& ids_strictly_ascending(r)
    &&& forall|id: u64| #[trigger] r.contains(id) <==> admitted(t, g, stop, UNBOUNDED, id)
}

/// The visitor of a test: it notes every object that it is handed and
/// leaves the cutoff alone.
pub struct Collector<G> {
    /// The objects noted so far.
    pub results: Vec<u64>,
    /// The calls made so far.
    pub log: Ghost<Seq<Visit<G>>>,
}

/// The collector has noted the object of every call and has answered each
/// call with the cutoff that it was handed.
pub open spec fn collected<G>(results: Seq<u64>, log: Seq<Visit<G>>) -> bool {
    &&& results.len() == log.len()
    &&& forall|l: int|
        0 <= l < log.len() ==> results[l] == (#[trigger] log[l]).id && log[l].answer == log[l].nearest
}

impl<G: TestGeometry> Visitor<G> for Collector<G> {
    type Context = ();

    open spec fn log(&self) -> Seq<Visit<G>> {
        self.log@
    }

    open spec fn ready(&self, context: &()) -> bool {
        collected(self.results@, self.log@)
    }

    fn visit(&mut self, context: &(), geom: &G, nearest: u64, id: u64) -> (answer: u64) {
        self.results.push(id);
        self.log = Ghost(self.log@.push((Visit { geom: *geom, nearest, id, answer: nearest })));
        nearest
    }
}

/// Answers that never lower the cutoff leave it where it was.
pub proof fn lemma_low_steady<G>(nearest: u64, log: Seq<Visit<G>>, from: int, upto: int)
    requires
        0 <= from <= upto <= log.len(),
        forall|l: int| from <= l < upto ==> (#[trigger] log[l]).nearest == low(nearest, log, from, l),
        forall|l: int| from <= l < upto ==> (#[trigger] log[l]).answer == log[l].nearest,
    ensures
        low(nearest, log, from, upto) == nearest,
    decreases upto - from,
{
    if upto > from {
        lemma_low_steady(nearest, log, from, upto - 1);
        assert(log[upto - 1].nearest == low(nearest, log, from, upto - 1));
    }
}

/// What a descent with a collector has noted is, as a set, what a test
/// returns.
pub proof fn lemma_collected<I: SpatialIndex, G: TestGeometry>(
    t: Seq<(I, u64)>,
    g: G,
    stop: nat,
    r: u64,
    log: Seq<Visit<G>>,
    results: Seq<u64>,
    id: u64,
)
    requires
        walked(t, 0, g, stop, UNBOUNDED, r, Seq::empty(), log),
        collected(results, log),
    ensures
        results.contains(id) <==> admitted(t, g, stop, UNBOUNDED, id),
{
    lemma_low_steady(UNBOUNDED, log, 0, log.len() as int);
    if results.contains(id) {
        let l = choose|l: int| 0 <= l < results.len() && results[l] == id;
        assert(sound_at(t, 0, g, stop, UNBOUNDED, log[l]));
        let i = choose|i: int|
            0 <= i < t.len() && #[trigger] stands_for(t, i, 0, g, stop, log[l]) && reach(
                g,
                t[i].0.path(),
                0,
                stop,
                UNBOUNDED,
            );
        assert(t[i].1 == id);
    }
    if admitted(t, g, stop, UNBOUNDED, id) {
        let i = choose|i: int|
            0 <= i < t.len() && (#[trigger] t[i]).1 == id && reach(
                g,
                t[i].0.path(),
                0,
                stop,
                UNBOUNDED,
            );
        assert(found(t, i, 0, g, stop, log, 0));
        let l = choose|l: int|
            0 <= l && 0 <= l < log.len() && stands_for(t, i, 0, g, stop, #[trigger] log[l]);
        assert(results[l] == id);
    }
}

/// The distance that a measurement stands for: its value, or no bound
/// where the measurement found nothing.
pub open spec fn answer_of(m: Option<u64>) -> u64 {
    match m {
        Some(d) => d,
        None => UNBOUNDED,
    }
}

/// Object `id` was handed over in one of the first `upto` calls.
pub open spec fn logged<G>(log: Seq<Visit<G>>, upto: int, id: u64) -> bool {
    exists|l: int| 0 <= l < upto && l < log.len() && (#[trigger] log[l]).id == id
}

/// Call `l` is accounted for: if its object had been handed over before,
/// the answer is "no bound" and nothing was measured; otherwise the answer
/// stands for a measurement that `get_dist` can give for what the call was
/// handed.
pub open spec fn explained<G, F: Fn(&G, u64, u64) -> Option<u64>>(
    get_dist: F,
    log: Seq<Visit<G>>,
    l: int,
) -> bool {
    if logged(log, l, log[l].id) {
        log[l].answer == UNBOUNDED
    } else {
        exists|m: Option<u64>|
            #[trigger] call_ensures(get_dist, (&log[l].geom, log[l].nearest, log[l].id), m)
                && log[l].answer == answer_of(m)
    }
}

/// The object of the last of the first `upto` calls whose answer was below
/// the cutoff that the call was handed.
pub open spec fn champion<G>(log: Seq<Visit<G>>, upto: int) -> Option<u64>
    decreases upto,
{
    if upto <= 0 {
        None
    } else if log[upto - 1].answer < log[upto - 1].nearest {
        Some(log[upto - 1].id)
    } else {
        champion(log, upto - 1)
    }
}

/// The visitor of a pick: with the measurement as its context, it measures
/// every object once, remembers which object gave the smallest distance so
/// far, and answers with what it measured.
pub struct Picker<G, F> {
    /// The objects handed over so far.
    pub seen: FxHashSet<u64>,
    /// The object that last lowered the cutoff.
    pub best: Option<u64>,
    /// The calls made so far.
    pub log: Ghost<Seq<Visit<G>>>,
    /// The objects that were measured, in the order of the measurements.
    pub asked: Ghost<Seq<u64>>,
    /// Ties the picker to the type of its measurement.
    pub measure: core::marker::PhantomData<F>,
}

/// The picker's state fits its log, and no object was measured twice.
pub open spec fn picking<G, F: Fn(&G, u64, u64) -> Option<u64>>(
    seen: Set<u64>,
    best: Option<u64>,
    get_dist: F,
    log: Seq<Visit<G>>,
    asked: Seq<u64>,
) -> bool {
    &&& forall|g: &G, n: u64, id: u64| call_requires(get_dist, (g, n, id))
    &&& asked.no_duplicates()
    &&& forall|id: u64| seen.contains(id) <==> asked.contains(id)
    &&& forall|id: u64| seen.contains(id) <==> logged(log, log.len() as int, id)
    &&& forall|l: int| 0 <= l < log.len() ==> #[trigger] explained(get_dist, log, l)
    &&& best == champion(log, log.len() as int)
}

/// What a measurement does to a pick: the answer that the kernel gets, and
/// whether the object becomes the best so far.  An object that had been
/// measured before is not measured again, and `measured` is then `None`.
pub fn consider(nearest: u64, id: u64, measured: Option<u64>, best: &mut Option<u64>) -> (answer: u64)
    ensures
        answer == answer_of(measured),
        *final(best) == if answer < nearest {
            Some(id)
        } else {
            *old(best)
        },
{
    match measured {
        Some(d) => {
            if d < nearest {
                *best = Some(id);
            }
            d
        },
        None => UNBOUNDED,
    }
}

/// The best object so far depends on the calls so far only.
proof fn lemma_champion_same<G>(a: Seq<Visit<G>>, b: Seq<Visit<G>>, upto: int)
    requires
        upto <= a.len(),
        upto <= b.len(),
        forall|l: int| 0 <= l < upto ==> a[l] == b[l],
    ensures
        champion(a, upto) == champion(b, upto),
    decreases upto,
{
    if upto > 0 {
        lemma_champion_same(a, b, upto - 1);
    }
}

impl<G: TestGeometry, F: Fn(&G, u64, u64) -> Option<u64>> Visitor<G> for Picker<G, F> {
    type Context = F;

    open spec fn log(&self) -> Seq<Visit<G>> {
        self.log@
    }

    open spec fn ready(&self, context: &F) -> bool {
        picking(self.seen@, self.best, *context, self.log@, self.asked@)
    }

    /// Measures the object if it has not been handed over before, and only
    /// then.
    fn visit(&mut self, context: &F, geom: &G, nearest: u64, id: u64) -> (answer: u64)
        ensures
            final(self).asked@ == if old(self).seen@.contains(id) {
                old(self).asked@
            } else {
                old(self).asked@.push(id)
            },
    {
        let ghost log0 = self.log@;
        let ghost asked0 = self.asked@;
        let fresh = seen_insert(&mut self.seen, id);
        let measured = if fresh {
            self.asked = Ghost(self.asked@.push(id));
            context(geom, nearest, id)
        } else {
            None
        };
        let answer = consider(nearest, id, measured, &mut self.best);
        self.log = Ghost(self.log@.push((Visit { geom: *geom, nearest, id, answer })));
        proof {
            let log1 = self.log@;
            let n = log0.len() as int;
            assert(log1[n].id == id);
            let asked1 = self.asked@;
            if fresh {
                assert forall|i: int, j: int|
                    0 <= i < asked1.len() && 0 <= j < asked1.len() && i != j implies asked1[i]
                    != asked1[j] by {
                    if i < asked0.len() {
                        assert(asked0.contains(asked0[i]));
                    }
                    if j < asked0.len() {
                        assert(asked0.contains(asked0[j]));
                    }
                }
                assert(asked1[asked0.len() as int] == id);
            }
            assert forall|x: u64| self.seen@.contains(x) <==> asked1.contains(x) by {
                if asked1.contains(x) {
                    let i = choose|i: int| 0 <= i < asked1.len() && asked1[i] == x;
                    if i < asked0.len() {
                        assert(asked0.contains(x));
                    }
                }
                if self.seen@.contains(x) && x != id {
                    assert(asked0.contains(x));
                    let i = choose|i: int| 0 <= i < asked0.len() && asked0[i] == x;
                    assert(asked1[i] == x);
                }
            }
            assert forall|x: u64| self.seen@.contains(x) <==> logged(log1, n + 1, x) by {
                if logged(log1, n + 1, x) {
                    let l = choose|l: int|
                        0 <= l < n + 1 && l < log1.len() && (#[trigger] log1[l]).id == x;
                    if l < n {
                        assert(log0[l].id == x);
                        assert(logged(log0, n, x));
                    }
                }
                if self.seen@.contains(x) {
                    if x == id {
                        assert(log1[n].id == x);
                    } else {
                        assert(logged(log0, n, x));
                        let l = choose|l: int|
                            0 <= l < n && l < log0.len() && (#[trigger] log0[l]).id == x;
                        assert(log1[l].id == x);
                    }
                }
            }
            assert forall|l: int| 0 <= l < log1.len() implies #[trigger] explained(
                *context,
                log1,
                l,
            ) by {
                if l < n {
                    assert(explained(*context, log0, l));
                    assert(log1[l] == log0[l]);
                    if logged(log0, l, log0[l].id) {
                        let w = choose|w: int|
                            0 <= w < l && w < log0.len() && (#[trigger] log0[w]).id == log0[l].id;
                        assert(log1[w].id == log1[l].id);
                    }
                    if logged(log1, l, log1[l].id) {
                        let w = choose|w: int|
                            0 <= w < l && w < log1.len() && (#[trigger] log1[w]).id == log1[l].id;
                        assert(log0[w].id == log0[l].id);
                    }
                } else {
                    if logged(log1, n, id) {
                        let w = choose|w: int|
                            0 <= w < n && w < log1.len() && (#[trigger] log1[w]).id == id;
                        assert(log0[w].id == id);
                        assert(logged(log0, n, id));
                    }
                    if logged(log0, n, id) {
                        let w = choose|w: int|
                            0 <= w < n && w < log0.len() && (#[trigger] log0[w]).id == id;
                        assert(log1[w].id == id);
                    }
                    if fresh {
                        assert(call_ensures(*context, (geom, nearest, id), measured));
                        assert(call_ensures(
                            *context,
                            (&log1[n].geom, log1[n].nearest, log1[n].id),
                            measured,
                        ));
                    }
                }
            }
            lemma_champion_same(log0, log1, n);
        }
        answer
    }
}

/// The first call that handed over the object of call `l`.
pub proof fn lemma_first_logged<G>(log: Seq<Visit<G>>, l: int) -> (first: int)
    requires
        0 <= l < log.len(),
    ensures
        0 <= first <= l,
        log[first].id == log[l].id,
        !logged(log, first, log[l].id),
    decreases l,
{
    if logged(log, l, log[l].id) {
        let w = choose|w: int| 0 <= w < l && w < log.len() && (#[trigger] log[w]).id == log[l].id;
        lemma_first_logged(log, w)
    } else {
        l
    }
}

/// The cutoff lies at or below every answer given so far.
pub proof fn lemma_low_below<G>(nearest: u64, log: Seq<Visit<G>>, upto: int, l: int)
    requires
        0 <= l < upto <= log.len(),
    ensures
        low(nearest, log, 0, upto) <= log[l].answer,
    decreases upto,
{
    if l < upto - 1 {
        lemma_low_below(nearest, log, upto - 1, l);
    }
}

/// The best object so far is the one whose answer is the cutoff; without
/// one the cutoff has not moved.
pub proof fn lemma_champion<G>(nearest: u64, log: Seq<Visit<G>>, upto: int) -> (l: int)
    requires
        0 <= upto <= log.len(),
        forall|q: int| 0 <= q < upto ==> (#[trigger] log[q]).nearest == low(nearest, log, 0, q),
    ensures
        champion(log, upto) is None ==> low(nearest, log, 0, upto) == nearest,
        champion(log, upto) is Some ==> 0 <= l < upto && champion(log, upto) == Some(log[l].id)
            && log[l].answer == low(nearest, log, 0, upto) && log[l].answer < log[l].nearest,
    decreases upto,
{
    if upto <= 0 {
        0
    } else if log[upto - 1].answer < log[upto - 1].nearest {
        assert(log[upto - 1].nearest == low(nearest, log, 0, upto - 1));
        upto - 1
    } else {
        assert(log[upto - 1].nearest == low(nearest, log, 0, upto - 1));
        lemma_champion(nearest, log, upto - 1)
    }
}

/// `log` is the log of a pick with the result `res`: its calls are those
/// of the descent from the root with the cutoff `max_dist`, in the order of
/// the descent; every call is accounted for by `get_dist`, an object being
/// measured only when it is first handed over; and the result is the final
/// cutoff with the object that last lowered it, if one did.
pub open spec fn pick_log<I: SpatialIndex, G: TestGeometry, F: Fn(&G, u64, u64) -> Option<u64>>(
    get_dist: F,
    t: Seq<(I, u64)>,
    g: G,
    stop: nat,
    max_dist: u64,
    log: Seq<Visit<G>>,
    res: Option<(u64, u64)>,
) -> bool {
    let run = replay(t, Seq::<nat>::empty(), g, stop, max_dist, log, 0);
    &&& run.ok
    &&& run.next == log.len()
    &&& forall|l: int| 0 <= l < log.len() ==> #[trigger] explained(get_dist, log, l)
    &&& res == match champion(log, log.len() as int) {
        Some(id) => Some((run.cutoff, id)),
        None => None,
    }
}

/// `res` is the result of a pick: there is a log of the descent that
/// `get_dist` accounts for and that ends with it.
pub open spec fn picked<I: SpatialIndex, G: TestGeometry, F: Fn(&G, u64, u64) -> Option<u64>>(
    get_dist: F,
    t: Seq<(I, u64)>,
    g: G,
    stop: nat,
    max_dist: u64,
    res: Option<(u64, u64)>,
) -> bool {
    exists|log: Seq<Visit<G>>| #[trigger] pick_log(get_dist, t, g, stop, max_dist, log, res)
}

/// `get_dist` can give the measurement `m` for object `id`, when handed a
/// cutoff of at most `max_dist` and the geometry of the cell at which an
/// entry of the object is processed that the descent reaches.
pub open spec fn measurable<I: SpatialIndex, G: TestGeometry, F: Fn(&G, u64, u64) -> Option<u64>>(
    get_dist: F,
    t: Seq<(I, u64)>,
    g: G,
    stop: nat,
    max_dist: u64,
    id: u64,
    m: Option<u64>,
) -> bool {
    exists|i: int, n: u64|
        0 <= i < t.len() && t[i].1 == id && reach(g, t[i].0.path(), 0, stop, max_dist) && n
            <= max_dist && #[trigger] call_ensures(
            get_dist,
            (&descend(g, t[i].0.path().subrange(0, station(t[i].0.path().len(), 0, stop) as int)), n, id),
            m,
        )
}

/// The cutoff that a pick ends with: the result's distance, or `max_dist`
/// without a result.
pub open spec fn final_cutoff(res: Option<(u64, u64)>, max_dist: u64) -> u64 {
    match res {
        Some(p) => p.0,
        None => max_dist,
    }
}

/// The result of a pick.  If there is one, its distance lies below
/// `max_dist` and is a measurement of its object.  And nothing nearer was
/// passed over: every object with an entry that the descent reaches with
/// the final cutoff (the result's distance, or `max_dist` without a result)
/// was measured, and not below that cutoff.
pub open spec fn pick_result<I: SpatialIndex, G: TestGeometry, F: Fn(&G, u64, u64) -> Option<u64>>(
    get_dist: F,
    t: Seq<(I, u64)>,
    g: G,
    stop: nat,
    max_dist: u64,
    res: Option<(u64, u64)>,
) -> bool {
    let cutoff = final_cutoff(res, max_dist);
    &&& match res {
        Some(p) => p.0 < max_dist && measurable(get_dist, t, g, stop, max_dist, p.1, Some(p.0)),
        None => true,
    }
    &&& forall|i: int|
        0 <= i < t.len() && #[trigger] reach(g, t[i].0.path(), 0, stop, cutoff) ==> exists|
            m: Option<u64>,
        |
            #[trigger] measurable(get_dist, t, g, stop, max_dist, t[i].1, m) && answer_of(m)
                >= cutoff
}

/// The first call for an object stands for a measurement that `get_dist`
/// can give for an entry that the descent reaches.
proof fn lemma_measurable<I: SpatialIndex, G: TestGeometry, F: Fn(&G, u64, u64) -> Option<u64>>(
    get_dist: F,
    t: Seq<(I, u64)>,
    g: G,
    stop: nat,
    max_dist: u64,
    r: u64,
    log: Seq<Visit<G>>,
    l: int,
) -> (m: Option<u64>)
    requires
        walked(t, 0, g, stop, max_dist, r, Seq::empty(), log),
        0 <= l < log.len(),
        explained(get_dist, log, l),
        !logged(log, l, log[l].id),
    ensures
        measurable(get_dist, t, g, stop, max_dist, log[l].id, m),
        answer_of(m) == log[l].answer,
{
    let m = choose|m: Option<u64>|
        #[trigger] call_ensures(get_dist, (&log[l].geom, log[l].nearest, log[l].id), m)
            && log[l].answer == answer_of(m);
    assert(sound_at(t, 0, g, stop, max_dist, log[l]));
    let i = choose|i: int|
        0 <= i < t.len() && #[trigger] stands_for(t, i, 0, g, stop, log[l]) && reach(
            g,
            t[i].0.path(),
            0,
            stop,
            max_dist,
        );
    lemma_low_falls(max_dist, log, 0, l, l);
    assert(log[l].nearest == low(max_dist, log, 0, l));
    assert(call_ensures(
        get_dist,
        (
            &descend(g, t[i].0.path().subrange(0, station(t[i].0.path().len(), 0, stop) as int)),
            log[l].nearest,
            log[l].id,
        ),
        m,
    ));
    m
}

/// What a descent with a picker has left is the result of a pick.
pub proof fn lemma_picked<I: SpatialIndex, G: TestGeometry, F: Fn(&G, u64, u64) -> Option<u64>>(
    get_dist: F,
    t: Seq<(I, u64)>,
    g: G,
    stop: nat,
    max_dist: u64,
    r: u64,
    log: Seq<Visit<G>>,
    seen: Set<u64>,
    best: Option<u64>,
    asked: Seq<u64>,
)
    requires
        walked(t, 0, g, stop, max_dist, r, Seq::empty(), log),
        picking(seen, best, get_dist, log, asked),
    ensures
        pick_result(
            get_dist,
            t,
            g,
            stop,
            max_dist,
            match best {
                Some(id) => Some((r, id)),
                None => None,
            },
        ),
{
    let res: Option<(u64, u64)> = match best {
        Some(id) => Some((r, id)),
        None => None,
    };
    let w = lemma_champion(max_dist, log, log.len() as int);
    lemma_low_falls(max_dist, log, 0, 0, log.len() as int);
    if best is Some {
        lemma_low_falls(max_dist, log, 0, w, w);
        assert(log[w].nearest == low(max_dist, log, 0, w));
        assert(explained(get_dist, log, w));
        assert(log[w].answer != UNBOUNDED);
        let m = lemma_measurable(get_dist, t, g, stop, max_dist, r, log, w);
        assert(m == Some(r));
    }
    assert forall|i: int| 0 <= i < t.len() && #[trigger] reach(g, t[i].0.path(), 0, stop, r) implies exists|
        m: Option<u64>,
    |
        #[trigger] measurable(get_dist, t, g, stop, max_dist, t[i].1, m) && answer_of(m) >= r by {
        assert(found(t, i, 0, g, stop, log, 0));
        let l = choose|l: int|
            0 <= l && 0 <= l < log.len() && stands_for(t, i, 0, g, stop, #[trigger] log[l]);
        let first = lemma_first_logged(log, l);
        assert(explained(get_dist, log, first));
        let m = lemma_measurable(get_dist, t, g, stop, max_dist, r, log, first);
        lemma_low_below(max_dist, log, log.len() as int, first);
        assert(measurable(get_dist, t, g, stop, max_dist, t[i].1, m));
    }
}

} // verus!
