//! The mathematical model of a cell: its path from the root.
//!
//! A cell of a hierarchical subdivision is named by the child numbers taken
//! on the way down from the root, so the root is the empty path and a cell's
//! depth is the length of its path.  One cell contains another exactly when
//! its path is an initial part of the other's, and the order in which cells
//! are stored is the pre-order of the tree: a cell comes before everything
//! below it, and the subtrees of its children follow one another.

use vstd::prelude::*;

verus! {

/// `a` is `b` itself or a cell above it.
pub open spec fn is_prefix(a: Seq<nat>, b: Seq<nat>) -> bool {
    &&& a.len() <= b.len()
    &&& forall|i: int| 0 <= i < a.len() ==> a[i] == b[i]
}

/// One of the two cells contains the other.
pub open spec fn related(a: Seq<nat>, b: Seq<nat>) -> bool {
    is_prefix(a, b) || is_prefix(b, a)
}

/// Both cells lie at depth `d` or deeper, below the same cell of depth `d`.
pub open spec fn share_ancestor(a: Seq<nat>, b: Seq<nat>, d: nat) -> bool {
    &&& d <= a.len()
    &&& d <= b.len()
    &&& forall|i: int| 0 <= i < d ==> a[i] == b[i]
}

/// The two paths take the same turns on their first `n` levels.
pub open spec fn agree(a: Seq<nat>, b: Seq<nat>, n: int) -> bool {
    &&& 0 <= n <= a.len()
    &&& n <= b.len()
    &&& forall|i: int| 0 <= i < n ==> a[i] == b[i]
}

/// The first level at or after `i` on which the paths part, or on which one
/// of them ends.
pub open spec fn fork_from(a: Seq<nat>, b: Seq<nat>, i: int) -> int
    decreases a.len() - i,
{
    if 0 <= i < a.len() && i < b.len() && a[i] == b[i] {
        fork_from(a, b, i + 1)
    } else {
        i
    }
}

/// The level on which the two paths part, or on which the shorter one ends.
pub open spec fn fork(a: Seq<nat>, b: Seq<nat>) -> int {
    fork_from(a, b, 0)
}

/// Strict pre-order: `a` is a proper ancestor of `b`, or `a` turns to a
/// lower-numbered child where the two part.
pub open spec fn path_lt(a: Seq<nat>, b: Seq<nat>) -> bool {
    let n = fork(a, b);
    n < b.len() && (n == a.len() || a[n] < b[n])
}

/// Pre-order: `b` does not come strictly before `a`.
pub open spec fn path_le(a: Seq<nat>, b: Seq<nat>) -> bool {
    !path_lt(b, a)
}

/// Every turn of the path names one of the `fanout` children.
pub open spec fn turns_below(p: Seq<nat>, fanout: nat) -> bool {
    forall|i: int| 0 <= i < p.len() ==> p[i] < fanout
}

/// From a level up to which the paths agree, the search for the fork ends
/// at a level up to which they agree and on which they cannot go on
/// together.
proof fn lemma_fork_from(a: Seq<nat>, b: Seq<nat>, i: int)
    requires
        agree(a, b, i),
    ensures
        agree(a, b, fork_from(a, b, i)),
        i <= fork_from(a, b, i),
        fork_from(a, b, i) == a.len() || fork_from(a, b, i) == b.len() || a[fork_from(a, b, i)]
            != b[fork_from(a, b, i)],
    decreases a.len() - i,
{
    if 0 <= i < a.len() && i < b.len() && a[i] == b[i] {
        lemma_fork_from(a, b, i + 1);
    }
}

/// The search for the fork, started at or before a level with the two
/// properties of the fork, ends at that level.
proof fn lemma_fork_from_meets(a: Seq<nat>, b: Seq<nat>, i: int, n: int)
    requires
        0 <= i <= n,
        agree(a, b, n),
        n == a.len() || n == b.len() || a[n] != b[n],
    ensures
        fork_from(a, b, i) == n,
    decreases n - i,
{
    if i < n {
        lemma_fork_from_meets(a, b, i + 1, n);
    }
}

/// The fork is the one level up to which the paths agree and on which they
/// cannot go on together.
pub proof fn lemma_fork(a: Seq<nat>, b: Seq<nat>)
    ensures
        agree(a, b, fork(a, b)),
        fork(a, b) == a.len() || fork(a, b) == b.len() || a[fork(a, b)] != b[fork(a, b)],
        fork(b, a) == fork(a, b),
{
    lemma_fork_from(a, b, 0);
    lemma_fork_from_meets(b, a, 0, fork(a, b));
}

/// A level with the two properties of the fork is the fork.
pub proof fn lemma_fork_is(a: Seq<nat>, b: Seq<nat>, n: int)
    requires
        agree(a, b, n),
        n == a.len() || n == b.len() || a[n] != b[n],
    ensures
        fork(a, b) == n,
{
    lemma_fork_from_meets(a, b, 0, n);
}

/// Containment read off the fork.
pub proof fn lemma_prefix_fork(a: Seq<nat>, b: Seq<nat>)
    ensures
        is_prefix(a, b) <==> fork(a, b) == a.len(),
{
    lemma_fork(a, b);
    if is_prefix(a, b) {
        lemma_fork_is(a, b, a.len() as int);
    }
}

/// No path comes before itself, and of two paths at most one comes first.
pub proof fn lemma_lt_asymmetric(a: Seq<nat>, b: Seq<nat>)
    ensures
        !(path_lt(a, b) && path_lt(b, a)),
        !path_lt(a, a),
{
    lemma_fork(a, b);
    lemma_fork(a, a);
    lemma_fork_is(a, a, a.len() as int);
}

/// Two paths of which neither comes first are the same path.
pub proof fn lemma_le_antisymmetric(a: Seq<nat>, b: Seq<nat>)
    requires
        path_le(a, b),
        path_le(b, a),
    ensures
        a == b,
{
    lemma_fork(a, b);
    assert(a =~= b);
}

/// The pre-order is transitive.
pub proof fn lemma_lt_transitive(a: Seq<nat>, b: Seq<nat>, c: Seq<nat>)
    requires
        path_lt(a, b),
        path_lt(b, c),
    ensures
        path_lt(a, c),
{
    lemma_fork(a, b);
    lemma_fork(b, c);
    let n1 = fork(a, b);
    let n2 = fork(b, c);
    let m = if n1 <= n2 { n1 } else { n2 };
    assert(agree(a, c, m));
    lemma_fork_is(a, c, m);
}

/// Transitivity with one weak step on the left.
pub proof fn lemma_le_lt_transitive(a: Seq<nat>, b: Seq<nat>, c: Seq<nat>)
    requires
        path_le(a, b),
        path_lt(b, c),
    ensures
        path_lt(a, c),
{
    if path_lt(a, b) {
        lemma_lt_transitive(a, b, c);
    } else {
        lemma_le_antisymmetric(a, b);
    }
}

/// Transitivity with one weak step on the right.
pub proof fn lemma_lt_le_transitive(a: Seq<nat>, b: Seq<nat>, c: Seq<nat>)
    requires
        path_lt(a, b),
        path_le(b, c),
    ensures
        path_lt(a, c),
{
    if path_lt(b, c) {
        lemma_lt_transitive(a, b, c);
    } else {
        lemma_le_antisymmetric(b, c);
    }
}

/// The weak pre-order is transitive.
pub proof fn lemma_le_transitive(a: Seq<nat>, b: Seq<nat>, c: Seq<nat>)
    requires
        path_le(a, b),
        path_le(b, c),
    ensures
        path_le(a, c),
{
    if path_lt(c, a) {
        lemma_lt_le_transitive(c, a, b);
        lemma_lt_asymmetric(b, c);
    }
}

/// A cell comes no later than anything it contains.
pub proof fn lemma_prefix_le(a: Seq<nat>, b: Seq<nat>)
    requires
        is_prefix(a, b),
    ensures
        path_le(a, b),
{
    lemma_prefix_fork(a, b);
    lemma_fork(a, b);
}

/// Of two related cells the earlier one contains the later one.
pub proof fn lemma_related_le(a: Seq<nat>, b: Seq<nat>)
    requires
        related(a, b),
        path_le(a, b),
    ensures
        is_prefix(a, b),
{
    if is_prefix(b, a) {
        lemma_prefix_le(b, a);
        lemma_le_antisymmetric(a, b);
    }
}

/// What lies, in pre-order, between a cell and something it contains is
/// contained in it as well.
pub proof fn lemma_prefix_between(a: Seq<nat>, z: Seq<nat>, b: Seq<nat>)
    requires
        path_le(a, z),
        path_le(z, b),
        is_prefix(a, b),
    ensures
        is_prefix(a, z),
{
    lemma_fork(a, z);
    let n = fork(a, z);
    if n < a.len() {
        assert(n < z.len() && z[n] > a[n]);
        assert(agree(b, z, n));
        lemma_fork_is(b, z, n);
        assert(path_lt(b, z));
    }
    lemma_prefix_fork(a, z);
}

/// Below a cell, what comes before its child `k` is the cell itself or lies
/// under a child of lower number.
pub proof fn lemma_before_child(c: Seq<nat>, z: Seq<nat>, k: nat)
    requires
        is_prefix(c, z),
        path_lt(z, c.push(k)),
    ensures
        z.len() == c.len() || z[c.len() as int] < k,
{
    let child = c.push(k);
    lemma_fork(z, child);
    let n = fork(z, child);
    if z.len() > c.len() {
        assert(agree(z, child, c.len() as int));
        if z[c.len() as int] == k {
            assert(agree(z, child, child.len() as int));
            lemma_fork_is(z, child, child.len() as int);
        } else {
            lemma_fork_is(z, child, c.len() as int);
        }
    }
}

/// Below a cell, what does not come before its child `k` lies under a child
/// of that number or a higher one.
pub proof fn lemma_from_child(c: Seq<nat>, z: Seq<nat>, k: nat)
    requires
        is_prefix(c, z),
        path_le(c.push(k), z),
    ensures
        z.len() > c.len(),
        z[c.len() as int] >= k,
{
    let child = c.push(k);
    lemma_fork(z, child);
    if z.len() == c.len() {
        assert(agree(z, child, c.len() as int));
        lemma_fork_is(z, child, c.len() as int);
    } else {
        assert(agree(z, child, c.len() as int));
        if z[c.len() as int] != k {
            lemma_fork_is(z, child, c.len() as int);
        }
    }
}

/// What lies under child `k` comes at or after that child and before every
/// child of higher number.
pub proof fn lemma_under_child(c: Seq<nat>, z: Seq<nat>, k: nat, later: nat)
    requires
        is_prefix(c.push(k), z),
        k < later,
    ensures
        path_le(c.push(k), z),
        path_lt(z, c.push(later)),
{
    lemma_prefix_le(c.push(k), z);
    let other = c.push(later);
    assert(z[c.len() as int] == c.push(k)[c.len() as int]);
    assert(agree(z, other, c.len() as int)) by {
        assert forall|i: int| 0 <= i < c.len() implies z[i] == other[i] by {
            assert(z[i] == c.push(k)[i]);
        }
    }
    lemma_fork_is(z, other, c.len() as int);
}

/// A path with one more turn lies under the child that the turn names.
pub proof fn lemma_child_of(c: Seq<nat>, z: Seq<nat>)
    requires
        is_prefix(c, z),
        z.len() > c.len(),
    ensures
        is_prefix(c.push(z[c.len() as int]), z),
{
}

} // verus!
