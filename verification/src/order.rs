//! Dependency orders: what a topological order of a dependency table is,
//! and the counting facts used to compute one.

use vstd::prelude::*;
use crate::graph::count_of;

verus! {

/// Every dependency of `v` appears in `placed`.
pub open spec fn ready(deps: Seq<Seq<usize>>, placed: Seq<usize>, v: int) -> bool {
    forall|k: int| 0 <= k < deps[v].len() ==> placed.contains(#[trigger] deps[v][k])
}

/// `order` lists every product exactly once, each after all of its
/// dependencies.
pub open spec fn is_topological_order(deps: Seq<Seq<usize>>, order: Seq<usize>) -> bool {
    &&& order.len() == deps.len()
    &&& order.no_duplicates()
    &&& forall|i: int| 0 <= i < order.len() ==> (#[trigger] order[i]) < deps.len()
    &&& forall|v: usize| v < deps.len() ==> #[trigger] order.contains(v)
    &&& forall|i: int| 0 <= i < order.len() ==> ready(deps, order.take(i), #[trigger] order[i] as int)
}

/// At every position, `order` holds the smallest product id that could go
/// there: the least not-yet-listed product whose dependencies are all listed.
pub open spec fn is_least_first(deps: Seq<Seq<usize>>, order: Seq<usize>) -> bool {
    forall|i: int, w: usize|
        #![trigger order[i], order.take(i).contains(w)]
        0 <= i < order.len() && w < deps.len() && !order.take(i).contains(w)
            && ready(deps, order.take(i), w as int) ==> order[i] <= w
}

/// Some order lists every product after its dependencies.
pub open spec fn has_topological_order(deps: Seq<Seq<usize>>) -> bool {
    exists|order: Seq<usize>| is_topological_order(deps, order)
}

/// The number of products not yet placed.
pub open spec fn num_unplaced(placed: Seq<bool>) -> nat
    decreases placed.len(),
{
    if placed.len() == 0 {
        0
    } else {
        num_unplaced(placed.drop_last()) + if placed.last() { 0nat } else { 1nat }
    }
}

/// The number of entries of `s` naming a product not yet placed.
pub open spec fn unplaced_count(s: Seq<usize>, placed: Seq<bool>) -> nat
    decreases s.len(),
{
    if s.len() == 0 {
        0
    } else {
        unplaced_count(s.drop_last(), placed) + if placed[s.last() as int] { 0nat } else { 1nat }
    }
}

pub proof fn lemma_num_unplaced_all(n: nat)
    ensures
        num_unplaced(Seq::new(n, |i: int| false)) == n,
    decreases n,
{
    if n > 0 {
        lemma_num_unplaced_all((n - 1) as nat);
        assert(Seq::new(n, |i: int| false).drop_last() =~= Seq::new((n - 1) as nat, |i: int| false));
    }
}

pub proof fn lemma_num_unplaced_place(placed: Seq<bool>, v: int)
    requires
        0 <= v < placed.len(),
        !placed[v],
    ensures
        num_unplaced(placed.update(v, true)) + 1 == num_unplaced(placed),
    decreases placed.len(),
{
    let u = placed.update(v, true);
    if v == placed.len() - 1 {
        assert(u.drop_last() =~= placed.drop_last());
    } else {
        assert(u.drop_last() =~= placed.drop_last().update(v, true));
        lemma_num_unplaced_place(placed.drop_last(), v);
    }
}

pub proof fn lemma_num_unplaced_zero(placed: Seq<bool>, v: int)
    requires
        num_unplaced(placed) == 0,
        0 <= v < placed.len(),
    ensures
        placed[v],
    decreases placed.len(),
{
    if v < placed.len() - 1 {
        lemma_num_unplaced_zero(placed.drop_last(), v);
    }
}

pub proof fn lemma_num_unplaced_positive(placed: Seq<bool>) -> (v: int)
    requires
        num_unplaced(placed) > 0,
    ensures
        0 <= v < placed.len(),
        !placed[v],
    decreases placed.len(),
{
    if !placed.last() {
        placed.len() - 1
    } else {
        lemma_num_unplaced_positive(placed.drop_last())
    }
}

pub proof fn lemma_unplaced_all(s: Seq<usize>, placed: Seq<bool>)
    requires
        forall|k: int| 0 <= k < s.len() ==> 0 <= #[trigger] s[k] < placed.len() && !placed[s[k] as int],
    ensures
        unplaced_count(s, placed) == s.len(),
    decreases s.len(),
{
    if s.len() > 0 {
        lemma_unplaced_all(s.drop_last(), placed);
    }
}

/// Placing `v` removes exactly its occurrences from the unplaced count.
pub proof fn lemma_unplaced_place(s: Seq<usize>, placed: Seq<bool>, v: usize)
    requires
        v < placed.len(),
        !placed[v as int],
        forall|k: int| 0 <= k < s.len() ==> 0 <= #[trigger] s[k] < placed.len(),
    ensures
        unplaced_count(s, placed) == unplaced_count(s, placed.update(v as int, true)) + count_of(s, v),
    decreases s.len(),
{
    if s.len() > 0 {
        lemma_unplaced_place(s.drop_last(), placed, v);
    }
}

/// The unplaced count is zero exactly when every entry is placed.
pub proof fn lemma_unplaced_zero(s: Seq<usize>, placed: Seq<bool>)
    requires
        forall|k: int| 0 <= k < s.len() ==> 0 <= #[trigger] s[k] < placed.len(),
    ensures
        (unplaced_count(s, placed) == 0) <==> (forall|k: int| 0 <= k < s.len() ==> placed[#[trigger] s[k] as int]),
    decreases s.len(),
{
    if s.len() > 0 {
        lemma_unplaced_zero(s.drop_last(), placed);
        if unplaced_count(s, placed) == 0 {
            assert forall|k: int| 0 <= k < s.len() implies placed[#[trigger] s[k] as int] by {
                if k < s.len() - 1 {
                    assert(s[k] == s.drop_last()[k]);
                }
            }
        }
        if forall|k: int| 0 <= k < s.len() ==> placed[#[trigger] s[k] as int] {
            assert forall|k: int| 0 <= k < s.drop_last().len() implies placed[#[trigger] s.drop_last()[k] as int] by {
                assert(s.drop_last()[k] == s[k]);
            }
        }
    }
}

pub proof fn lemma_count_take_le(s: Seq<usize>, k: int, x: usize)
    requires
        0 <= k <= s.len(),
    ensures
        count_of(s.take(k), x) <= count_of(s, x),
    decreases s.len() - k,
{
    if k < s.len() {
        lemma_count_take_le(s, k + 1, x);
        assert(s.take(k + 1).drop_last() =~= s.take(k));
    } else {
        assert(s.take(k) =~= s);
    }
}

/// No order can list a set of products each of which waits on another
/// member of the set: whichever comes first would be listed before one of
/// its dependencies.
pub proof fn lemma_stuck_set_blocks_order(deps: Seq<Seq<usize>>, stuck: Seq<bool>, witness: usize)
    requires
        stuck.len() == deps.len(),
        witness < deps.len(),
        stuck[witness as int],
        forall|u: int|
            0 <= u < deps.len() && #[trigger] stuck[u] ==> exists|k: int|
                0 <= k < deps[u].len() && stuck[#[trigger] deps[u][k] as int],
        forall|u: int, k: int| 0 <= u < deps.len() && 0 <= k < deps[u].len() ==> (#[trigger] deps[u][k]) < deps.len(),
    ensures
        !has_topological_order(deps),
{
    if has_topological_order(deps) {
        let order = choose|order: Seq<usize>| is_topological_order(deps, order);
        assert(order.contains(witness));
        let wj = choose|j: int| 0 <= j < order.len() && order[j] == witness;
        assert(stuck[order[wj] as int]);
        // the first position holding a stuck product
        let first = first_stuck(order, stuck, 0);
        let u = order[first] as int;
        let k = choose|k: int| 0 <= k < deps[u].len() && stuck[#[trigger] deps[u][k] as int];
        assert(ready(deps, order.take(first), u));
        assert(order.take(first).contains(deps[u][k]));
        let j = choose|j: int| 0 <= j < order.take(first).len() && order.take(first)[j] == deps[u][k];
        assert(order[j] == deps[u][k]);
    }
}

/// The first position at or after `i` whose product is stuck, given that a
/// stuck product appears there.
proof fn first_stuck(order: Seq<usize>, stuck: Seq<bool>, i: int) -> (f: int)
    requires
        0 <= i <= order.len(),
        forall|j: int| 0 <= j < order.len() ==> (#[trigger] order[j]) < stuck.len(),
        exists|j: int| i <= j < order.len() && stuck[#[trigger] order[j] as int],
    ensures
        i <= f < order.len(),
        stuck[order[f] as int],
        forall|j: int| i <= j < f ==> !stuck[#[trigger] order[j] as int],
    decreases order.len() - i,
{
    if stuck[order[i] as int] {
        i
    } else {
        first_stuck(order, stuck, i + 1)
    }
}

/// The dependency order that lists, at every position, the smallest
/// product whose dependencies are all listed.
pub open spec fn least_order(deps: Seq<Seq<usize>>) -> Seq<usize> {
    choose|o: Seq<usize>| is_topological_order(deps, o) && is_least_first(deps, o)
}

proof fn lemma_prefix_equal(deps: Seq<Seq<usize>>, o1: Seq<usize>, o2: Seq<usize>, i: int)
    requires
        is_topological_order(deps, o1),
        is_least_first(deps, o1),
        is_topological_order(deps, o2),
        is_least_first(deps, o2),
        0 <= i <= o1.len(),
    ensures
        o1.take(i) == o2.take(i),
    decreases i,
{
    if i == 0 {
        assert(o1.take(0) =~= o2.take(0));
    } else {
        let k = i - 1;
        lemma_prefix_equal(deps, o1, o2, k);
        let a = o1[k];
        let b = o2[k];
        assert(!o1.take(k).contains(a)) by {
            if o1.take(k).contains(a) {
                let j = choose|j: int| 0 <= j < k && #[trigger] o1.take(k)[j] == a;
                assert(o1[j] == o1[k]);
            }
        }
        assert(!o2.take(k).contains(b)) by {
            if o2.take(k).contains(b) {
                let j = choose|j: int| 0 <= j < k && #[trigger] o2.take(k)[j] == b;
                assert(o2[j] == o2[k]);
            }
        }
        assert(ready(deps, o1.take(k), a as int));
        assert(ready(deps, o2.take(k), b as int));
        assert(a < deps.len() && b < deps.len());
        assert(!o2.take(k).contains(a));
        assert(!o1.take(k).contains(b));
        assert(o2[k] <= a);
        assert(o1[k] <= b);
        assert(o1.take(i) =~= o2.take(i)) by {
            assert forall|j: int| 0 <= j < i implies o1.take(i)[j] == o2.take(i)[j] by {
                if j < k {
                    assert(o1.take(i)[j] == o1.take(k)[j]);
                    assert(o2.take(i)[j] == o2.take(k)[j]);
                }
            }
        }
    }
}

/// There is one order that lists, at every position, the smallest product
/// whose dependencies are all listed: any two such orders are equal.
pub proof fn lemma_least_order_unique(deps: Seq<Seq<usize>>, o1: Seq<usize>, o2: Seq<usize>)
    requires
        is_topological_order(deps, o1),
        is_least_first(deps, o1),
        is_topological_order(deps, o2),
        is_least_first(deps, o2),
    ensures
        o1 == o2,
        o1 == least_order(deps),
{
    lemma_prefix_equal(deps, o1, o2, o1.len() as int);
    assert(o1.take(o1.len() as int) =~= o1);
    assert(o2.take(o2.len() as int) =~= o2);
    let o3 = least_order(deps);
    assert(is_topological_order(deps, o3) && is_least_first(deps, o3));
    lemma_prefix_equal(deps, o1, o3, o1.len() as int);
    assert(o3.take(o3.len() as int) =~= o3);
}

/// The first position from `i` on where two equally long sequences
/// differ, when they agree before `i` and differ somewhere.
proof fn lemma_first_difference(o1: Seq<usize>, o2: Seq<usize>, i: int) -> (k: int)
    requires
        o1.len() == o2.len(),
        0 <= i <= o1.len(),
        forall|j: int| 0 <= j < i ==> o1[j] == o2[j],
        o1 != o2,
    ensures
        i <= k < o1.len(),
        o1[k] != o2[k],
        forall|j: int| 0 <= j < k ==> o1[j] == o2[j],
    decreases o1.len() - i,
{
    if i == o1.len() {
        assert(o1 =~= o2);
        i
    } else if o1[i] != o2[i] {
        i
    } else {
        lemma_first_difference(o1, o2, i + 1)
    }
}

/// The least-first dependency order comes first among all dependency
/// orders: any other one, at the first position where they differ, holds
/// a larger product id. So the build order is the lexicographically
/// smallest order that respects the dependencies.
pub proof fn lemma_least_order_is_lexicographically_first(deps: Seq<Seq<usize>>, o1: Seq<usize>, o2: Seq<usize>)
    requires
        is_topological_order(deps, o1),
        is_least_first(deps, o1),
        is_topological_order(deps, o2),
    ensures
        o1 == o2 || exists|k: int| 0 <= k < o1.len() && o1.take(k) == o2.take(k) && #[trigger] o1[k] < o2[k],
{
    if o1 != o2 {
        let k = lemma_first_difference(o1, o2, 0);
        assert(o1.take(k) =~= o2.take(k));
        let w = o2[k];
        assert(ready(deps, o2.take(k), o2[k] as int));
        assert(!o2.take(k).contains(w)) by {
            if o2.take(k).contains(w) {
                let j = choose|j: int| 0 <= j < k && #[trigger] o2.take(k)[j] == w;
                assert(o2[j] == o2[k]);
            }
        }
        assert(o1[k] <= w);
        assert(o1[k] < o2[k]);
    }
}

} // verus!
