//! The all-pairs sweep over sorted entries.
//!
//! The sweep walks the entries in storage order and keeps a stack of the
//! entries whose cell contains the current one.  It never builds a tree: in
//! storage order a cell is followed by everything it contains, so an entry
//! stays on the stack exactly while the sweep is inside its cell.

use crate::index::SpatialIndex;
use crate::order::{lemma_sorted_paths, sorted};
use crate::path::{is_prefix, lemma_prefix_between, lemma_related_le, related};
use crate::positions::{positions_get, positions_held, positions_len, positions_new, positions_pop, positions_push};
use vstd::prelude::*;

verus! {

/// The cell of entry `k` is the cell of entry `j` or contains it.
pub open spec fn above<I: SpatialIndex>(t: Seq<(I, u64)>, k: int, j: int) -> bool {
    is_prefix(t[k].0.path(), t[j].0.path())
}

/// Entry `k` belongs to the same object as entry `j` and its cell is the
/// cell of `j` or contains it.
pub open spec fn shadows<I: SpatialIndex>(t: Seq<(I, u64)>, k: int, j: int) -> bool {
    above(t, k, j) && t[k].1 == t[j].1
}

/// No earlier entry of the same object lies in the cell of entry `j` or
/// above it.  Only such entries take part in the sweep: an object that
/// occupies a cell is not entered again for a cell inside it.
pub open spec fn principal<I: SpatialIndex>(t: Seq<(I, u64)>, j: int) -> bool {
    forall|k: int| 0 <= k < j ==> !#[trigger] shadows(t, k, j)
}

/// The sweep meets entry `k` on its stack when it reaches entry `j`.
pub open spec fn sweep_pair<I: SpatialIndex>(t: Seq<(I, u64)>, j: int, k: int) -> bool {
    &&& 0 <= k < j < t.len()
    &&& principal(t, j)
    &&& principal(t, k)
    &&& above(t, k, j)
}

/// The sweep over `t` compares object `a` against object `b`: it reaches an
/// entry of `a` while an entry of `b` is on its stack.
pub open spec fn touching<I: SpatialIndex>(t: Seq<(I, u64)>, a: u64, b: u64) -> bool {
    exists|j: int, k: int| #[trigger] sweep_pair(t, j, k) && t[j].1 == a && t[k].1 == b
}

/// The pair `p` stands in `out` at or after place `from`.
pub open spec fn emitted(out: Seq<(u64, u64)>, from: int, p: (u64, u64)) -> bool {
    exists|i: int| 0 <= i && from <= i < out.len() && #[trigger] out[i] == p
}

/// What a sweep over `t` with `filter` has added to the pairs in `before`:
/// every pair it added is one that the sweep compares and that the filter
/// may accept, and every pair that the sweep compares and that the filter
/// cannot reject has been added.
pub open spec fn sweep_report<I: SpatialIndex, F: Fn(u64, u64) -> bool>(
    t: Seq<(I, u64)>,
    filter: F,
    before: Seq<(u64, u64)>,
    after: Seq<(u64, u64)>,
) -> bool {
    &&& before.len() <= after.len()
    &&& forall|i: int| 0 <= i < before.len() ==> after[i] == before[i]
    &&& forall|i: int|
        before.len() <= i < after.len() ==> touching(t, (#[trigger] after[i]).0, after[i].1)
            && call_ensures(filter, after[i], true)
    &&& forall|a: u64, b: u64|
        #[trigger] touching(t, a, b) && !call_ensures(filter, (a, b), false) ==> emitted(
            after,
            before.len() as int,
            (a, b),
        )
}

/// The principal entries before `upto` whose cell is the cell of entry `j`
/// or contains it, in rising order.  With `upto` at `j` these are the
/// entries on the stack when the sweep has reached entry `j`.
pub open spec fn ancestors<I: SpatialIndex>(t: Seq<(I, u64)>, j: int, upto: int) -> Seq<int>
    decreases upto,
{
    if upto <= 0 {
        Seq::empty()
    } else {
        let rest = ancestors(t, j, upto - 1);
        if principal(t, upto - 1) && above(t, upto - 1, j) {
            rest.push(upto - 1)
        } else {
            rest
        }
    }
}

/// The pairs that the sweep asks the filter about at entry `j`: none if the
/// entry is not principal; else the entry's object with the object of each
/// entry on the stack, from the bottom up.
pub open spec fn candidates_at<I: SpatialIndex>(t: Seq<(I, u64)>, j: int) -> Seq<(u64, u64)> {
    if principal(t, j) {
        Seq::new(ancestors(t, j, j).len(), |s: int| (t[j].1, t[ancestors(t, j, j)[s]].1))
    } else {
        Seq::empty()
    }
}

/// The pairs that the sweep asks the filter about at the entries before
/// `upto`, in the order of the entries.
pub open spec fn candidates_before<I: SpatialIndex>(t: Seq<(I, u64)>, upto: int) -> Seq<(u64, u64)>
    decreases upto,
{
    if upto <= 0 {
        Seq::empty()
    } else {
        candidates_before(t, upto - 1) + candidates_at(t, upto - 1)
    }
}

/// The pairs that the sweep over `t` asks the filter about, in its order.
pub open spec fn sweep_candidates<I: SpatialIndex>(t: Seq<(I, u64)>) -> Seq<(u64, u64)> {
    candidates_before(t, t.len() as int)
}

/// The pairs whose answer is `true`, in their order.
pub open spec fn kept(pairs: Seq<(u64, u64)>, answers: Seq<bool>) -> Seq<(u64, u64)>
    decreases pairs.len(),
{
    if pairs.len() == 0 {
        Seq::empty()
    } else {
        let rest = kept(pairs.drop_last(), answers.drop_last());
        if answers.last() {
            rest.push(pairs.last())
        } else {
            rest
        }
    }
}

/// `answers` holds, pair by pair, an answer that the filter can give.
pub open spec fn answered<F: Fn(u64, u64) -> bool>(
    filter: F,
    pairs: Seq<(u64, u64)>,
    answers: Seq<bool>,
) -> bool {
    &&& answers.len() == pairs.len()
    &&& forall|i: int| 0 <= i < pairs.len() ==> call_ensures(filter, pairs[i], #[trigger] answers[i])
}

/// The filter can be asked about every pair that the sweep over `t` asks
/// it about.
pub open spec fn may_be_asked<I: SpatialIndex, F: Fn(u64, u64) -> bool>(
    filter: F,
    t: Seq<(I, u64)>,
) -> bool {
    forall|i: int|
        0 <= i < sweep_candidates(t).len() ==> call_requires(filter, #[trigger] sweep_candidates(t)[i])
}

/// What a sweep over `t` with `filter` does to the pairs in `before`: it
/// asks the filter about each of its candidates once, in order, and appends
/// those that the filter accepts.
pub open spec fn swept_exactly<I: SpatialIndex, F: Fn(u64, u64) -> bool>(
    t: Seq<(I, u64)>,
    filter: F,
    before: Seq<(u64, u64)>,
    after: Seq<(u64, u64)>,
) -> bool {
    exists|answers: Seq<bool>|
        #[trigger] answered(filter, sweep_candidates(t), answers) && after == before + kept(
            sweep_candidates(t),
            answers,
        )
}

/// Position `k` stands on the stack.
spec fn on_stack(st: Seq<usize>, k: int) -> bool {
    exists|s: int| 0 <= s < st.len() && #[trigger] st[s] == k
}

/// The stack holds principal entries before `j`, in rising order, each in
/// the cell of the next or above it.
spec fn chain<I: SpatialIndex>(t: Seq<(I, u64)>, st: Seq<usize>, j: int) -> bool {
    &&& forall|s: int| 0 <= s < st.len() ==> (#[trigger] st[s]) < j && principal(t, st[s] as int)
    &&& forall|r: int, s: int|
        0 <= r < s < st.len() ==> (#[trigger] st[r]) < (#[trigger] st[s]) && above(
            t,
            st[r] as int,
            st[s] as int,
        )
}

/// A principal entry before `j` that is not on the stack contains no entry
/// from `j` on.
spec fn dead<I: SpatialIndex>(t: Seq<(I, u64)>, st: Seq<usize>, j: int) -> bool {
    forall|k: int, m: int|
        0 <= k < j <= m < t.len() && principal(t, k) && #[trigger] above(t, k, m) ==> on_stack(
            st,
            k,
        )
}

/// Every entry on the stack lies in the cell of entry `j` or above it.
spec fn covers<I: SpatialIndex>(t: Seq<(I, u64)>, st: Seq<usize>, j: int) -> bool {
    forall|s: int| 0 <= s < st.len() ==> above(t, (#[trigger] st[s]) as int, j)
}

/// What is on the stack stays on it when a position is pushed, and the
/// pushed position is on it.
proof fn lemma_on_positions_push(st: Seq<usize>, x: usize, k: int)
    requires
        on_stack(st, k) || k == x,
    ensures
        on_stack(st.push(x), k),
{
    if on_stack(st, k) {
        let s = choose|s: int| 0 <= s < st.len() && #[trigger] st[s] == k;
        assert(st.push(x)[s] == k);
    } else {
        assert(st.push(x)[st.len() as int] == k);
    }
}

/// What is on the stack below its top stays on it when the top is taken
/// off.
proof fn lemma_on_positions_pop(st: Seq<usize>, k: int)
    requires
        on_stack(st, k),
        st.len() > 0,
        k != st.last(),
    ensures
        on_stack(st.drop_last(), k),
{
    let s = choose|s: int| 0 <= s < st.len() && #[trigger] st[s] == k;
    assert(st.drop_last()[s] == k);
}

/// Among the entries of one object that lie in a cell or above it, the
/// first one is principal.
pub proof fn lemma_first_shadow<I: SpatialIndex>(t: Seq<(I, u64)>, k: int, j: int) -> (p: int)
    requires
        0 <= k < j < t.len(),
        shadows(t, k, j),
    ensures
        0 <= p <= k,
        principal(t, p),
        shadows(t, p, j),
    decreases k,
{
    if principal(t, k) {
        k
    } else {
        let k2 = choose|k2: int| 0 <= k2 < k && #[trigger] shadows(t, k2, k);
        assert(shadows(t, k2, j));
        lemma_first_shadow(t, k2, j)
    }
}

/// Every ancestor is a principal entry before `upto` whose cell is the cell
/// of entry `j` or contains it.
pub proof fn lemma_ancestors_hold<I: SpatialIndex>(t: Seq<(I, u64)>, j: int, upto: int, s: int)
    requires
        0 <= s < ancestors(t, j, upto).len(),
    ensures
        0 <= ancestors(t, j, upto)[s] < upto,
        principal(t, ancestors(t, j, upto)[s]),
        above(t, ancestors(t, j, upto)[s], j),
    decreases upto,
{
    if upto > 0 {
        let rest = ancestors(t, j, upto - 1);
        if s < rest.len() {
            lemma_ancestors_hold(t, j, upto - 1, s);
        }
    }
}

/// Every principal entry before `upto` whose cell is the cell of entry `j`
/// or contains it is an ancestor.
pub proof fn lemma_ancestors_find<I: SpatialIndex>(t: Seq<(I, u64)>, j: int, upto: int, k: int) -> (s:
    int)
    requires
        0 <= k < upto,
        principal(t, k),
        above(t, k, j),
    ensures
        0 <= s < ancestors(t, j, upto).len(),
        ancestors(t, j, upto)[s] == k,
    decreases upto,
{
    let rest = ancestors(t, j, upto - 1);
    if k == upto - 1 {
        rest.len() as int
    } else {
        let s = lemma_ancestors_find(t, j, upto - 1, k);
        assert(ancestors(t, j, upto)[s] == rest[s]);
        s
    }
}

/// The stack, when the sweep has reached entry `j` and has taken off what
/// lies outside the entry's cell, holds the ancestors of the entry.
proof fn lemma_stack_is_ancestors<I: SpatialIndex>(
    t: Seq<(I, u64)>,
    st: Seq<usize>,
    j: int,
    upto: int,
    m: int,
)
    requires
        0 <= upto <= j,
        0 <= m <= st.len(),
        chain(t, st, j),
        covers(t, st, j),
        forall|k: int| 0 <= k < j && principal(t, k) && #[trigger] above(t, k, j) ==> on_stack(st, k),
        forall|s: int| 0 <= s < m ==> (#[trigger] st[s]) < upto,
        forall|s: int| m <= s < st.len() ==> (#[trigger] st[s]) >= upto,
    ensures
        ancestors(t, j, upto).len() == m,
        forall|s: int| 0 <= s < m ==> #[trigger] ancestors(t, j, upto)[s] == st[s],
    decreases upto,
{
    if upto == 0 {
        if m > 0 {
            assert(st[0] < 0);
        }
    } else {
        let u = upto - 1;
        if m > 0 && st[m - 1] == u {
            assert forall|s: int| 0 <= s < m - 1 implies (#[trigger] st[s]) < u by {
                assert(st[s] < st[m - 1]);
            }
            assert(principal(t, st[m - 1] as int));
            assert(above(t, st[m - 1] as int, j));
            lemma_stack_is_ancestors(t, st, j, u, m - 1);
        } else {
            assert forall|s: int| 0 <= s < m implies (#[trigger] st[s]) < u by {
                if st[s] == u {
                    if s < m - 1 {
                        assert(st[s] < st[m - 1]);
                        assert(st[m - 1] < upto);
                    }
                }
            }
            if principal(t, u) && above(t, u, j) {
                assert(on_stack(st, u));
                let s0 = choose|s0: int| 0 <= s0 < st.len() && #[trigger] st[s0] == u;
                if s0 < m {
                    assert(st[s0] < u);
                } else {
                    assert(st[s0] >= upto);
                }
            }
            lemma_stack_is_ancestors(t, st, j, u, m);
        }
    }
}

/// The candidates at the entries before a place are the first of the
/// candidates at the entries before a later place.
pub proof fn lemma_candidates_grow<I: SpatialIndex>(t: Seq<(I, u64)>, a: int, b: int)
    requires
        0 <= a <= b,
    ensures
        candidates_before(t, a).len() <= candidates_before(t, b).len(),
        candidates_before(t, b).subrange(0, candidates_before(t, a).len() as int)
            == candidates_before(t, a),
    decreases b - a,
{
    if a < b {
        lemma_candidates_grow(t, a, b - 1);
        assert(candidates_before(t, b).subrange(0, candidates_before(t, a).len() as int)
            =~= candidates_before(t, b - 1).subrange(0, candidates_before(t, a).len() as int));
    } else {
        assert(candidates_before(t, b).subrange(0, candidates_before(t, a).len() as int)
            =~= candidates_before(t, a));
    }
}

/// One more pair with its answer is kept if the answer is `true`.
pub proof fn lemma_kept_push(pairs: Seq<(u64, u64)>, answers: Seq<bool>, p: (u64, u64), v: bool)
    ensures
        kept(pairs.push(p), answers.push(v)) == if v {
            kept(pairs, answers).push(p)
        } else {
            kept(pairs, answers)
        },
{
    assert(pairs.push(p).drop_last() =~= pairs);
    assert(answers.push(v).drop_last() =~= answers);
}

/// Of pairs that follow other pairs, those are kept that are kept of either.
pub proof fn lemma_kept_append(
    a: Seq<(u64, u64)>,
    x: Seq<bool>,
    b: Seq<(u64, u64)>,
    y: Seq<bool>,
)
    requires
        a.len() == x.len(),
        b.len() == y.len(),
    ensures
        kept(a + b, x + y) == kept(a, x) + kept(b, y),
    decreases b.len(),
{
    if b.len() == 0 {
        assert(a + b =~= a);
        assert(x + y =~= x);
        assert(kept(a, x) + kept(b, y) =~= kept(a, x));
    } else {
        lemma_kept_append(a, x, b.drop_last(), y.drop_last());
        assert((a + b).drop_last() =~= a + b.drop_last());
        assert((x + y).drop_last() =~= x + y.drop_last());
        assert((a + b).last() == b.last());
        assert((x + y).last() == y.last());
        if y.last() {
            assert(kept(a, x) + kept(b, y) =~= (kept(a, x) + kept(b.drop_last(), y.drop_last())).push(
                b.last(),
            ));
        }
    }
}

/// A pair that is kept is a pair whose answer is `true`.
pub proof fn lemma_kept_from(pairs: Seq<(u64, u64)>, answers: Seq<bool>, x: int) -> (i: int)
    requires
        answers.len() == pairs.len(),
        0 <= x < kept(pairs, answers).len(),
    ensures
        0 <= i < pairs.len(),
        answers[i],
        pairs[i] == kept(pairs, answers)[x],
    decreases pairs.len(),
{
    let rest = kept(pairs.drop_last(), answers.drop_last());
    if answers.last() && x == rest.len() {
        pairs.len() - 1
    } else {
        lemma_kept_from(pairs.drop_last(), answers.drop_last(), x)
    }
}

/// A pair whose answer is `true` is kept.
pub proof fn lemma_kept_has(pairs: Seq<(u64, u64)>, answers: Seq<bool>, i: int) -> (x: int)
    requires
        answers.len() == pairs.len(),
        0 <= i < pairs.len(),
        answers[i],
    ensures
        0 <= x < kept(pairs, answers).len(),
        kept(pairs, answers)[x] == pairs[i],
    decreases pairs.len(),
{
    let rest = kept(pairs.drop_last(), answers.drop_last());
    if i == pairs.len() - 1 {
        rest.len() as int
    } else {
        let x = lemma_kept_has(pairs.drop_last(), answers.drop_last(), i);
        assert(kept(pairs, answers)[x] == rest[x]);
        x
    }
}

/// Every candidate is the pair of a principal entry with a principal entry
/// in whose cell it lies.
pub proof fn lemma_candidate_pair<I: SpatialIndex>(t: Seq<(I, u64)>, upto: int, i: int) -> (w: (
    int,
    int,
))
    requires
        0 <= upto <= t.len(),
        0 <= i < candidates_before(t, upto).len(),
    ensures
        sweep_pair(t, w.0, w.1),
        w.0 < upto,
        candidates_before(t, upto)[i] == (t[w.0].1, t[w.1].1),
    decreases upto,
{
    let earlier = candidates_before(t, upto - 1);
    if i < earlier.len() {
        lemma_candidate_pair(t, upto - 1, i)
    } else {
        let j = upto - 1;
        let s = i - earlier.len();
        assert(candidates_before(t, upto)[i] == candidates_at(t, j)[s]);
        lemma_ancestors_hold(t, j, j, s);
        (j, ancestors(t, j, j)[s])
    }
}

/// The pair of a principal entry with a principal entry in whose cell it
/// lies is a candidate.
pub proof fn lemma_pair_candidate<I: SpatialIndex>(t: Seq<(I, u64)>, j: int, k: int) -> (i: int)
    requires
        sweep_pair(t, j, k),
    ensures
        0 <= i < sweep_candidates(t).len(),
        sweep_candidates(t)[i] == (t[j].1, t[k].1),
{
    let s = lemma_ancestors_find(t, j, j, k);
    let i = candidates_before(t, j).len() + s;
    assert(candidates_before(t, j + 1)[i] == candidates_at(t, j)[s]);
    lemma_candidates_grow(t, j + 1, t.len() as int);
    assert(sweep_candidates(t).subrange(0, candidates_before(t, j + 1).len() as int)[i]
        == sweep_candidates(t)[i]);
    i
}

/// A sweep appends only pairs that it compares and that the filter may
/// accept, and every pair that it compares and that the filter cannot
/// reject.
pub proof fn lemma_sweep_report<I: SpatialIndex, F: Fn(u64, u64) -> bool>(
    t: Seq<(I, u64)>,
    filter: F,
    before: Seq<(u64, u64)>,
    after: Seq<(u64, u64)>,
)
    requires
        swept_exactly(t, filter, before, after),
    ensures
        sweep_report(t, filter, before, after),
{
    let c = sweep_candidates(t);
    let answers = choose|answers: Seq<bool>|
        #[trigger] answered(filter, c, answers) && after == before + kept(c, answers);
    let kp = kept(c, answers);
    let from = before.len() as int;
    assert forall|i: int| from <= i < after.len() implies touching(
        t,
        (#[trigger] after[i]).0,
        after[i].1,
    ) && call_ensures(filter, after[i], true) by {
        assert(after[i] == kp[i - from]);
        let x = lemma_kept_from(c, answers, i - from);
        let w = lemma_candidate_pair(t, t.len() as int, x);
        assert(call_ensures(filter, c[x], answers[x]));
    }
    assert forall|a: u64, b: u64|
        #[trigger] touching(t, a, b) && !call_ensures(filter, (a, b), false) implies emitted(
        after,
        from,
        (a, b),
    ) by {
        let (j, k) = choose|j: int, k: int|
            #[trigger] sweep_pair(t, j, k) && t[j].1 == a && t[k].1 == b;
        let i = lemma_pair_candidate(t, j, k);
        assert(call_ensures(filter, c[i], answers[i]));
        let x = lemma_kept_has(c, answers, i);
        assert(after[from + x] == (a, b));
    }
}

/// Sweeps the sorted entries and appends to `collisions` each pair of
/// objects that it compares and that `filter` accepts.
///
/// At an entry that is principal, the entries on the stack are the
/// principal entries whose cell is the entry's own or contains it; the
/// filter is asked about the entry's object and the object of each of them
/// in turn, the entry's first.  An entry that is not principal is passed
/// over.
pub(crate) fn scan_impl<I: SpatialIndex, F: Fn(u64, u64) -> bool>(
    tree: &[(I, u64)],
    collisions: &mut Vec<(u64, u64)>,
    filter: &F,
)
    requires
        sorted(tree@),
        may_be_asked(*filter, tree@),
    ensures
        swept_exactly(tree@, *filter, old(collisions)@, final(collisions)@),
{
    let ghost t = tree@;
    let ghost before = collisions@;
    let ghost mut answers: Seq<bool> = Seq::empty();
    let mut stack = positions_new();
    let mut j: usize = 0;
    proof {
        assert(before + kept(candidates_before(t, 0), answers) =~= before);
    }
    while j < tree.len()
        invariant
            t == tree@,
            sorted(t),
            j <= t.len(),
            may_be_asked(*filter, t),
            chain(t, positions_held(stack), j as int),
            dead(t, positions_held(stack), j as int),
            answered(*filter, candidates_before(t, j as int), answers),
            collisions@ == before + kept(candidates_before(t, j as int), answers),
        decreases t.len() - j,
    {
        let index = tree[j].0;
        let id = tree[j].1;
        let mut settled = false;
        while !settled
            invariant
                t == tree@,
                sorted(t),
                j < t.len(),
                index == t[j as int].0,
                chain(t, positions_held(stack), j as int),
                dead(t, positions_held(stack), j as int),
                settled ==> covers(t, positions_held(stack), j as int),
            decreases positions_held(stack).len() + (if settled { 0int } else { 1int }),
        {
            let n = positions_len(&stack);
            if n == 0 {
                settled = true;
            } else {
                let top = positions_get(&stack, n - 1);
                let ghost st = positions_held(stack);
                assert(st[n - 1] < j);
                if index.overlaps(&tree[top].0) {
                    proof {
                        lemma_sorted_paths(t, top as int, j as int);
                        lemma_related_le(t[top as int].0.path(), t[j as int].0.path());
                        assert forall|s: int| 0 <= s < st.len() implies above(
                            t,
                            (#[trigger] st[s]) as int,
                            j as int,
                        ) by {
                            if s < n - 1 {
                                assert(above(t, st[s] as int, st[n - 1] as int));
                            }
                        }
                    }
                    settled = true;
                } else {
                    positions_pop(&mut stack);
                    proof {
                        let st2 = positions_held(stack);
                        assert(st2 == st.drop_last());
                        assert forall|k: int, m: int|
                            0 <= k < j <= m < t.len() && principal(t, k) && #[trigger] above(
                                t,
                                k,
                                m,
                            ) implies on_stack(st2, k) by {
                            assert(on_stack(st, k));
                            if k == top {
                                lemma_sorted_paths(t, top as int, j as int);
                                lemma_sorted_paths(t, j as int, m);
                                lemma_prefix_between(
                                    t[k].0.path(),
                                    t[j as int].0.path(),
                                    t[m].0.path(),
                                );
                            }
                            lemma_on_positions_pop(st, k);
                        }
                        assert forall|s: int| 0 <= s < st2.len() implies (#[trigger] st2[s]) < j
                            && principal(t, st2[s] as int) by {
                            assert(st2[s] == st[s]);
                        }
                        assert forall|r: int, s: int| 0 <= r < s < st2.len() implies (
                        #[trigger] st2[r]) < (#[trigger] st2[s]) && above(
                            t,
                            st2[r] as int,
                            st2[s] as int,
                        ) by {
                            assert(st2[r] == st[r]);
                            assert(st2[s] == st[s]);
                        }
                    }
                }
            }
        }
        let ghost st = positions_held(stack);
        let n = positions_len(&stack);
        let mut s: usize = 0;
        let mut repeated = false;
        while s < n && !repeated
            invariant
                t == tree@,
                j < t.len(),
                id == t[j as int].1,
                st == positions_held(stack),
                n == st.len(),
                s <= n,
                chain(t, st, j as int),
                forall|r: int| 0 <= r < s ==> t[(#[trigger] st[r]) as int].1 != id,
                repeated ==> s < n && t[st[s as int] as int].1 == id,
            decreases n - s + (if repeated { 0int } else { 1int }),
        {
            let at = positions_get(&stack, s);
            assert(st[s as int] < j);
            if tree[at].1 == id {
                repeated = true;
            } else {
                s += 1;
            }
        }
        let ghost earlier = candidates_before(t, j as int);
        if repeated {
            proof {
                assert(st[s as int] < j);
                assert(shadows(t, st[s as int] as int, j as int));
                assert(!principal(t, j as int));
                assert(candidates_before(t, j + 1) =~= earlier);
                assert forall|k: int, m: int|
                    0 <= k < j + 1 <= m < t.len() && principal(t, k) && #[trigger] above(
                        t,
                        k,
                        m,
                    ) implies on_stack(st, k) by {}
                assert forall|q: int| 0 <= q < st.len() implies (#[trigger] st[q]) < j + 1
                    && principal(t, st[q] as int) by {}
            }
        } else {
            let ghost here = candidates_at(t, j as int);
            let ghost base = collisions@;
            let ghost mut given: Seq<bool> = Seq::empty();
            proof {
                assert forall|k: int| 0 <= k < j implies !#[trigger] shadows(t, k, j as int) by {
                    if shadows(t, k, j as int) {
                        let p = lemma_first_shadow(t, k, j as int);
                        assert(above(t, p, j as int));
                        assert(on_stack(st, p));
                        let r = choose|r: int| 0 <= r < st.len() && #[trigger] st[r] == p;
                        assert(t[st[r] as int].1 != id);
                    }
                }
                assert(principal(t, j as int));
                lemma_stack_is_ancestors(t, st, j as int, j as int, n as int);
                lemma_candidates_grow(t, j + 1, t.len() as int);
                assert(here.len() == n);
                assert forall|q: int| 0 <= q < n implies #[trigger] here[q] == (
                    id,
                    t[st[q] as int].1,
                ) && call_requires(*filter, here[q]) by {
                    assert(ancestors(t, j as int, j as int)[q] == st[q]);
                    let x = earlier.len() + q;
                    assert(candidates_before(t, j + 1)[x] == here[q]);
                    assert(sweep_candidates(t).subrange(
                        0,
                        candidates_before(t, j + 1).len() as int,
                    )[x] == sweep_candidates(t)[x]);
                }
                assert(here.subrange(0, 0) =~= Seq::<(u64, u64)>::empty());
                assert(base + kept(here.subrange(0, 0), given) =~= base);
            }
            let mut s: usize = 0;
            while s < n
                invariant
                    t == tree@,
                    j < t.len(),
                    id == t[j as int].1,
                    st == positions_held(stack),
                    n == st.len(),
                    s <= n,
                    principal(t, j as int),
                    chain(t, st, j as int),
                    covers(t, st, j as int),
                    here.len() == n,
                    forall|q: int|
                        0 <= q < n ==> #[trigger] here[q] == (id, t[st[q] as int].1) && call_requires(
                            *filter,
                            here[q],
                        ),
                    answered(*filter, here.subrange(0, s as int), given),
                    collisions@ == base + kept(here.subrange(0, s as int), given),
                decreases n - s,
            {
                let at = positions_get(&stack, s);
                assert(st[s as int] < j);
                let other = tree[at].1;
                assert(here[s as int] == (id, other));
                proof {
                    assert(!shadows(t, at as int, j as int));
                    assert(above(t, st[s as int] as int, j as int));
                }
                if id != other {
                    let keep = filter(id, other);
                    let ghost done = here.subrange(0, s as int);
                    let ghost so_far = given;
                    if keep {
                        collisions.push((id, other));
                    }
                    proof {
                        given = so_far.push(keep);
                        lemma_kept_push(done, so_far, (id, other), keep);
                        assert(here.subrange(0, s + 1) =~= done.push((id, other)));
                        assert(collisions@ =~= base + kept(here.subrange(0, s + 1), given));
                        assert forall|q: int| 0 <= q < s + 1 implies call_ensures(
                            *filter,
                            here.subrange(0, s + 1)[q],
                            #[trigger] given[q],
                        ) by {
                            if q < s {
                                assert(given[q] == so_far[q]);
                                assert(here.subrange(0, s + 1)[q] == done[q]);
                                assert(call_ensures(*filter, done[q], so_far[q]));
                            }
                        }
                    }
                }
                s += 1;
            }
            positions_push(&mut stack, j);
            proof {
                let st2 = positions_held(stack);
                assert(st2 == st.push(j));
                assert(here.subrange(0, n as int) =~= here);
                lemma_kept_append(earlier, answers, here, given);
                let joined = answers + given;
                assert(candidates_before(t, j + 1) == earlier + here);
                assert(collisions@ =~= before + kept(earlier + here, joined));
                assert forall|q: int| 0 <= q < (earlier + here).len() implies call_ensures(
                    *filter,
                    (earlier + here)[q],
                    #[trigger] joined[q],
                ) by {
                    if q < earlier.len() {
                        assert(joined[q] == answers[q]);
                        assert(call_ensures(*filter, earlier[q], answers[q]));
                    } else {
                        assert(joined[q] == given[q - earlier.len()]);
                        assert(call_ensures(
                            *filter,
                            here.subrange(0, n as int)[q - earlier.len()],
                            given[q - earlier.len()],
                        ));
                    }
                }
                answers = joined;
                assert forall|k: int, m: int|
                    0 <= k < j + 1 <= m < t.len() && principal(t, k) && #[trigger] above(
                        t,
                        k,
                        m,
                    ) implies on_stack(st2, k) by {
                    if k < j {
                        assert(on_stack(st, k));
                    }
                    lemma_on_positions_push(st, j, k);
                }
                assert forall|q: int| 0 <= q < st2.len() implies (#[trigger] st2[q]) < j + 1
                    && principal(t, st2[q] as int) by {
                    if q < st.len() {
                        assert(st2[q] == st[q]);
                    }
                }
                assert forall|r: int, q: int| 0 <= r < q < st2.len() implies (#[trigger] st2[r])
                    < (#[trigger] st2[q]) && above(t, st2[r] as int, st2[q] as int) by {
                    assert(st2[r] == st[r]);
                    if q < st.len() {
                        assert(st2[q] == st[q]);
                    }
                }
            }
        }
        j += 1;
    }
    proof {
        assert(answered(*filter, sweep_candidates(t), answers));
    }
}

/// The sweep pairs no object with itself.
pub proof fn lemma_touching_distinct<I: SpatialIndex>(t: Seq<(I, u64)>, a: u64, b: u64)
    requires
        touching(t, a, b),
    ensures
        a != b,
{
    let (j, k) = choose|j: int, k: int|
        #[trigger] sweep_pair(t, j, k) && t[j].1 == a && t[k].1 == b;
    assert(!shadows(t, k, j));
}

/// The sweep pairs only objects of which one has an entry in a cell that
/// contains a cell of the other: the second object's cell contains the
/// first's.
pub proof fn lemma_touching_related<I: SpatialIndex>(t: Seq<(I, u64)>, a: u64, b: u64) -> (w: (
    int,
    int,
))
    requires
        touching(t, a, b),
    ensures
        0 <= w.0 < t.len(),
        0 <= w.1 < t.len(),
        t[w.0].1 == a,
        t[w.1].1 == b,
        is_prefix(t[w.1].0.path(), t[w.0].0.path()),
{
    choose|j: int, k: int| #[trigger] sweep_pair(t, j, k) && t[j].1 == a && t[k].1 == b
}

/// Every entry lies in or below the cell of a principal entry of the same
/// object.
pub proof fn lemma_principal_above<I: SpatialIndex>(t: Seq<(I, u64)>, j: int) -> (p: int)
    requires
        0 <= j < t.len(),
    ensures
        0 <= p <= j,
        principal(t, p),
        t[p].1 == t[j].1,
        above(t, p, j),
{
    if principal(t, j) {
        j
    } else {
        let k = choose|k: int| 0 <= k < j && #[trigger] shadows(t, k, j);
        lemma_first_shadow(t, k, j)
    }
}

/// Two different objects with entries in related cells are paired by the
/// sweep, in one direction or the other.
pub proof fn lemma_related_touching<I: SpatialIndex>(t: Seq<(I, u64)>, j: int, k: int)
    requires
        sorted(t),
        0 <= j < t.len(),
        0 <= k < t.len(),
        t[j].1 != t[k].1,
        related(t[j].0.path(), t[k].0.path()),
    ensures
        touching(t, t[j].1, t[k].1) || touching(t, t[k].1, t[j].1),
    decreases
            (if k < j {
                0int
            } else {
                1int
            }),
{
    if k < j {
        lemma_sorted_paths(t, k, j);
        lemma_related_le(t[k].0.path(), t[j].0.path());
        let pj = lemma_principal_above(t, j);
        let pk = lemma_principal_above(t, k);
        assert(above(t, pk, j));
        if pk < pj {
            lemma_sorted_paths(t, pk, pj);
            lemma_related_le(t[pk].0.path(), t[pj].0.path());
            assert(sweep_pair(t, pj, pk));
        } else {
            lemma_sorted_paths(t, pj, pk);
            lemma_related_le(t[pj].0.path(), t[pk].0.path());
            assert(sweep_pair(t, pk, pj));
        }
    } else {
        lemma_related_touching(t, k, j);
    }
}

/// All cells lie at depth `d` or deeper.
pub open spec fn deep<I: SpatialIndex>(t: Seq<(I, u64)>, d: nat) -> bool {
    forall|i: int| 0 <= i < t.len() ==> (#[trigger] t[i]).0.path().len() >= d
}

/// Place `i` parts the entries safely: the entries next to it on either
/// side do not lie below one and the same cell of depth `d`.
pub open spec fn safe_split<I: SpatialIndex>(t: Seq<(I, u64)>, i: int, d: nat) -> bool {
    &&& 1 <= i <= t.len()
    &&& i < t.len() ==> !crate::path::share_ancestor(t[i - 1].0.path(), t[i].0.path(), d)
}

/// At a safe split no cell of the first part contains a cell of the
/// second.
proof fn lemma_no_straddle<I: SpatialIndex>(t: Seq<(I, u64)>, i: int, d: nat, k: int, j: int)
    requires
        sorted(t),
        deep(t, d),
        safe_split(t, i, d),
        0 <= k < i <= j < t.len(),
    ensures
        !above(t, k, j),
{
    if above(t, k, j) {
        let ck = t[k].0.path();
        lemma_sorted_paths(t, k, i - 1);
        lemma_sorted_paths(t, i - 1, j);
        lemma_prefix_between(ck, t[i - 1].0.path(), t[j].0.path());
        lemma_sorted_paths(t, k, i);
        lemma_sorted_paths(t, i, j);
        lemma_prefix_between(ck, t[i].0.path(), t[j].0.path());
        assert(t[k].0.path().len() >= d);
        assert forall|x: int| 0 <= x < d implies t[i - 1].0.path()[x] == t[i].0.path()[x] by {
            assert(t[i - 1].0.path()[x] == ck[x]);
            assert(t[i].0.path()[x] == ck[x]);
        }
        assert(t[i - 1].0.path().len() >= d);
        assert(t[i].0.path().len() >= d);
    }
}

/// An entry of the first part is principal there exactly if it is among
/// all entries.
proof fn lemma_principal_head<I: SpatialIndex>(t: Seq<(I, u64)>, i: int, j: int)
    requires
        0 <= j < i <= t.len(),
    ensures
        principal(t, j) <==> principal(t.subrange(0, i), j),
{
    let h = t.subrange(0, i);
    if principal(t, j) {
        assert forall|k: int| 0 <= k < j implies !#[trigger] shadows(h, k, j) by {
            assert(!shadows(t, k, j));
        }
    }
    if principal(h, j) {
        assert forall|k: int| 0 <= k < j implies !#[trigger] shadows(t, k, j) by {
            assert(!shadows(h, k, j));
        }
    }
}

/// At a safe split an entry of the second part is principal there exactly
/// if it is among all entries.
proof fn lemma_principal_tail<I: SpatialIndex>(t: Seq<(I, u64)>, i: int, d: nat, j: int)
    requires
        sorted(t),
        deep(t, d),
        safe_split(t, i, d),
        i <= j < t.len(),
    ensures
        principal(t, j) <==> principal(t.subrange(i, t.len() as int), j - i),
{
    let tl = t.subrange(i, t.len() as int);
    if principal(t, j) {
        assert forall|k: int| 0 <= k < j - i implies !#[trigger] shadows(tl, k, j - i) by {
            assert(!shadows(t, k + i, j));
        }
    }
    if principal(tl, j - i) {
        assert forall|k: int| 0 <= k < j implies !#[trigger] shadows(t, k, j) by {
            if k < i {
                lemma_no_straddle(t, i, d, k, j);
            } else {
                assert(!shadows(tl, k - i, j - i));
            }
        }
    }
}

/// An entry of the first part has there the ancestors that it has among all
/// entries.
proof fn lemma_ancestors_head<I: SpatialIndex>(t: Seq<(I, u64)>, i: int, j: int, upto: int)
    requires
        0 <= upto <= j < i <= t.len(),
    ensures
        ancestors(t.subrange(0, i), j, upto) == ancestors(t, j, upto),
    decreases upto,
{
    if upto > 0 {
        lemma_ancestors_head(t, i, j, upto - 1);
        lemma_principal_head(t, i, upto - 1);
    }
}

/// In the first part the sweep has the candidates that it has among all
/// entries.
proof fn lemma_candidates_head<I: SpatialIndex>(t: Seq<(I, u64)>, i: int, upto: int)
    requires
        0 <= upto <= i <= t.len(),
    ensures
        candidates_before(t.subrange(0, i), upto) == candidates_before(t, upto),
    decreases upto,
{
    if upto > 0 {
        let h = t.subrange(0, i);
        let j = upto - 1;
        lemma_candidates_head(t, i, j);
        lemma_principal_head(t, i, j);
        lemma_ancestors_head(t, i, j, j);
        if principal(t, j) {
            assert forall|s: int| 0 <= s < ancestors(t, j, j).len() implies candidates_at(h, j)[s]
                == candidates_at(t, j)[s] by {
                lemma_ancestors_hold(t, j, j, s);
            }
        }
        assert(candidates_at(h, j) =~= candidates_at(t, j));
    }
}

/// At a safe split an entry of the second part has no ancestor in the
/// first part, and in the second part the ancestors that it has there.
proof fn lemma_ancestors_tail<I: SpatialIndex>(t: Seq<(I, u64)>, i: int, d: nat, j: int, upto: int)
    requires
        sorted(t),
        deep(t, d),
        safe_split(t, i, d),
        i <= j < t.len(),
        0 <= upto <= j,
    ensures
        upto <= i ==> ancestors(t, j, upto).len() == 0,
        upto > i ==> ancestors(t, j, upto).len() == ancestors(
            t.subrange(i, t.len() as int),
            j - i,
            upto - i,
        ).len(),
        upto > i ==> forall|s: int|
            0 <= s < ancestors(t, j, upto).len() ==> #[trigger] ancestors(t, j, upto)[s] == ancestors(
                t.subrange(i, t.len() as int),
                j - i,
                upto - i,
            )[s] + i,
    decreases upto,
{
    if upto > 0 {
        let tl = t.subrange(i, t.len() as int);
        let k = upto - 1;
        lemma_ancestors_tail(t, i, d, j, k);
        if k < i {
            lemma_no_straddle(t, i, d, k, j);
        } else {
            lemma_principal_tail(t, i, d, k);
            assert(tl[k - i] == t[k]);
            assert(tl[j - i] == t[j]);
            assert(above(t, k, j) == above(tl, k - i, j - i));
            if k == i {
                assert(ancestors(tl, j - i, 0).len() == 0);
            }
        }
    }
}

/// At a safe split the sweep has, at the entries of the second part, the
/// candidates that it has there in the second part alone.
proof fn lemma_candidates_tail<I: SpatialIndex>(t: Seq<(I, u64)>, i: int, d: nat, upto: int)
    requires
        sorted(t),
        deep(t, d),
        safe_split(t, i, d),
        i <= upto <= t.len(),
    ensures
        candidates_before(t, upto) == candidates_before(t, i) + candidates_before(
            t.subrange(i, t.len() as int),
            upto - i,
        ),
    decreases upto,
{
    let tl = t.subrange(i, t.len() as int);
    if upto == i {
        assert(candidates_before(t, i) + candidates_before(tl, 0) =~= candidates_before(t, i));
    } else {
        let j = upto - 1;
        lemma_candidates_tail(t, i, d, j);
        lemma_principal_tail(t, i, d, j);
        lemma_ancestors_tail(t, i, d, j, j);
        assert(tl[j - i] == t[j]);
        if principal(t, j) {
            if j > i {
                assert forall|s: int| 0 <= s < ancestors(t, j, j).len() implies candidates_at(t, j)[s]
                    == candidates_at(tl, j - i)[s] by {
                    lemma_ancestors_hold(tl, j - i, j - i, s);
                    assert(ancestors(t, j, j)[s] == ancestors(tl, j - i, j - i)[s] + i);
                    assert(tl[ancestors(tl, j - i, j - i)[s]] == t[ancestors(t, j, j)[s]]);
                }
            }
        }
        assert(candidates_at(t, j) =~= candidates_at(tl, j - i));
        assert(candidates_before(t, upto) =~= candidates_before(t, i) + candidates_before(
            tl,
            upto - i,
        ));
    }
}

/// At a safe split the sweep over the whole has the candidates of the sweep
/// over the first part, followed by those of the sweep over the second: no
/// cell of one part contains a cell of the other.
pub proof fn lemma_split_candidates<I: SpatialIndex>(t: Seq<(I, u64)>, i: int, d: nat)
    requires
        sorted(t),
        deep(t, d),
        safe_split(t, i, d),
    ensures
        sweep_candidates(t) == sweep_candidates(t.subrange(0, i)) + sweep_candidates(
            t.subrange(i, t.len() as int),
        ),
{
    lemma_candidates_head(t, i, i);
    lemma_candidates_tail(t, i, d, t.len() as int);
}

} // verus!
