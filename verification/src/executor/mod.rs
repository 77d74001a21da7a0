//! Scheduling decisions of the executor: which products may run side by
//! side, which are skipped because a dependency failed, how batches are
//! sized, and the pre-build classification pass.

pub mod policy;
pub mod plan;
pub mod retry;

use vstd::prelude::*;
use crate::display::DisplayOptions;
use crate::graph::{BuildGraph, edges_ok};
use crate::order::{ready, is_topological_order};
use crate::executor::policy::{BuildPolicy, IncrementalPolicy, ProductAction, incremental_action};
use std::collections::HashSet;

verus! {

/// Options for configuring an executor.
#[derive(Debug, Clone, Copy)]
pub struct ExecutorOptions {
    pub parallel: usize,
    pub verbose: bool,
    pub display_opts: DisplayOptions,
    pub batch_size: Option<usize>,
    pub explain: bool,
    pub retry: usize,
}

/// A table of levels, entry per product, read as natural numbers.
pub open spec fn nat_levels(v: Seq<Option<usize>>) -> Seq<Option<nat>> {
    v.map_values(|o: Option<usize>| match o {
        Some(l) => Some(l as nat),
        None => None,
    })
}

/// The level lists of a schedule.
pub open spec fn level_lists(v: Seq<Vec<usize>>) -> Seq<Seq<usize>> {
    v.map_values(|row: Vec<usize>| row@)
}

/// The highest level among the dependencies `ds` that already have one.
pub open spec fn max_dep_level(ds: Seq<usize>, lv: Seq<Option<nat>>) -> nat
    decreases ds.len(),
{
    if ds.len() == 0 {
        0
    } else {
        let rest = max_dep_level(ds.drop_last(), lv);
        match lv[ds.last() as int] {
            Some(l) => if l > rest {
                l
            } else {
                rest
            },
            None => rest,
        }
    }
}

/// The level of a product with dependencies `ds`: 0 without dependencies,
/// else one past the highest level among them.
pub open spec fn level_for(ds: Seq<usize>, lv: Seq<Option<nat>>) -> nat {
    if ds.len() == 0 {
        0
    } else {
        max_dep_level(ds, lv) + 1
    }
}

/// The level of each product after the first `m` products of `order` are
/// placed.
pub open spec fn level_table(deps: Seq<Seq<usize>>, order: Seq<usize>, m: int) -> Seq<Option<nat>>
    decreases m,
{
    if m <= 0 {
        Seq::new(deps.len(), |i: int| None)
    } else {
        let lv = level_table(deps, order, m - 1);
        lv.update(order[m - 1] as int, Some(level_for(deps[order[m - 1] as int], lv)))
    }
}

/// `levels` with `id` appended to level `l`, adding empty levels as needed.
pub open spec fn placed(levels: Seq<Seq<usize>>, l: nat, id: usize) -> Seq<Seq<usize>> {
    let ext = if levels.len() <= l {
        levels + Seq::new((l + 1 - levels.len()) as nat, |i: int| Seq::<usize>::empty())
    } else {
        levels
    };
    ext.update(l as int, ext[l as int].push(id))
}

/// The level lists after the first `m` products of `order` are placed.
pub open spec fn levels_upto(deps: Seq<Seq<usize>>, order: Seq<usize>, m: int) -> Seq<Seq<usize>>
    decreases m,
{
    if m <= 0 {
        Seq::empty()
    } else {
        placed(
            levels_upto(deps, order, m - 1),
            level_for(deps[order[m - 1] as int], level_table(deps, order, m - 1)),
            order[m - 1],
        )
    }
}


/// Some level lists `v`.
pub open spec fn in_some_level(levels: Seq<Seq<usize>>, v: usize) -> bool {
    exists|l: int| 0 <= l < levels.len() && #[trigger] levels[l].contains(v)
}

/// Every entry of `order` names a product.
pub open spec fn in_range(order: Seq<usize>, n: nat) -> bool {
    forall|t: int| 0 <= t < order.len() ==> (#[trigger] order[t]) < n
}

proof fn lemma_table_shape(deps: Seq<Seq<usize>>, order: Seq<usize>, m: int)
    requires
        0 <= m <= order.len(),
        in_range(order, deps.len()),
        deps.len() <= usize::MAX,
    ensures
        level_table(deps, order, m).len() == deps.len(),
        forall|v: int| 0 <= v < deps.len() ==> (#[trigger] level_table(deps, order, m)[v] is Some <==> order.take(m).contains(v as usize)),
    decreases m,
{
    if m > 0 {
        lemma_table_shape(deps, order, m - 1);
        let id = order[m - 1];
        assert forall|v: int| 0 <= v < deps.len() implies (#[trigger] level_table(deps, order, m)[v] is Some <==> order.take(m).contains(v as usize)) by {
            assert(order.take(m) =~= order.take(m - 1).push(id));
            vstd::seq_lib::lemma_seq_contains_after_push(order.take(m - 1), id, v as usize);
        }
    } else {
        assert(order.take(0) =~= Seq::<usize>::empty());
    }
}

proof fn lemma_table_stable(deps: Seq<Seq<usize>>, order: Seq<usize>, t: int, m: int)
    requires
        0 <= t < m <= order.len(),
        in_range(order, deps.len()),
        deps.len() <= usize::MAX,
        order.no_duplicates(),
    ensures
        level_table(deps, order, m)[order[t] as int] == level_table(deps, order, t + 1)[order[t] as int],
    decreases m,
{
    if m > t + 1 {
        lemma_table_stable(deps, order, t, m - 1);
        lemma_table_shape(deps, order, m - 1);
        assert(order[m - 1] != order[t]);
    }
}

proof fn lemma_max_dep_at_least(ds: Seq<usize>, lv: Seq<Option<nat>>, k: int, l: nat)
    requires
        0 <= k < ds.len(),
        lv[ds[k] as int] == Some(l),
    ensures
        max_dep_level(ds, lv) >= l,
    decreases ds.len(),
{
    if k < ds.len() - 1 {
        lemma_max_dep_at_least(ds.drop_last(), lv, k, l);
    }
}

proof fn lemma_rows(deps: Seq<Seq<usize>>, order: Seq<usize>, m: int)
    requires
        0 <= m <= order.len(),
        in_range(order, deps.len()),
        deps.len() <= usize::MAX,
        order.no_duplicates(),
    ensures
        forall|l: int, v: usize|
            0 <= l < levels_upto(deps, order, m).len() ==> (#[trigger] levels_upto(deps, order, m)[l].contains(v)
                <==> (v < deps.len() && level_table(deps, order, m)[v as int] == Some(l as nat))),
        forall|v: int|
            0 <= v < deps.len() && (#[trigger] level_table(deps, order, m)[v]) is Some ==> level_table(deps, order, m)[v]->0
                < levels_upto(deps, order, m).len(),
        forall|l: int| 0 <= l < levels_upto(deps, order, m).len() ==> (#[trigger] levels_upto(deps, order, m)[l]).no_duplicates(),
    decreases m,
{
    lemma_table_shape(deps, order, m);
    if m > 0 {
        lemma_rows(deps, order, m - 1);
        lemma_table_shape(deps, order, m - 1);
        let prev = levels_upto(deps, order, m - 1);
        let t0 = level_table(deps, order, m - 1);
        let id = order[m - 1];
        let lvl = level_for(deps[id as int], t0);
        let ext = if prev.len() <= lvl {
            prev + Seq::new((lvl + 1 - prev.len()) as nat, |i: int| Seq::<usize>::empty())
        } else {
            prev
        };
        let cur = levels_upto(deps, order, m);
        assert(cur == ext.update(lvl as int, ext[lvl as int].push(id)));
        assert(!order.take(m - 1).contains(id)) by {
            if order.take(m - 1).contains(id) {
                let j = choose|j: int| 0 <= j < m - 1 && #[trigger] order.take(m - 1)[j] == id;
                assert(order[j] == order[m - 1]);
            }
        }
        assert(t0[id as int] is None);
        assert forall|l: int| 0 <= l < ext.len() implies (ext[l] == if l < prev.len() {
            prev[l]
        } else {
            Seq::<usize>::empty()
        }) by {}
        assert forall|l: int, v: usize| 0 <= l < cur.len() implies (#[trigger] cur[l].contains(v) <==> (v < deps.len()
            && level_table(deps, order, m)[v as int] == Some(l as nat))) by {
            if l == lvl {
                vstd::seq_lib::lemma_seq_contains_after_push(ext[l], id, v);
                if l < prev.len() {
                    assert(prev[l].contains(v) <==> (v < deps.len() && t0[v as int] == Some(l as nat)));
                }
            } else {
                if l < prev.len() {
                    assert(prev[l].contains(v) <==> (v < deps.len() && t0[v as int] == Some(l as nat)));
                }
            }
        }
        assert forall|v: int| 0 <= v < deps.len() && (#[trigger] level_table(deps, order, m)[v]) is Some implies level_table(
            deps,
            order,
            m,
        )[v]->0 < cur.len() by {
            if v != id as int {
                assert(t0[v] is Some);
            }
        }
        assert forall|l: int| 0 <= l < cur.len() implies (#[trigger] cur[l]).no_duplicates() by {
            if l == lvl {
                if l < prev.len() {
                    assert(!prev[l].contains(id));
                }
                assert forall|i: int, j: int| 0 <= i < j < cur[l].len() implies cur[l][i] != cur[l][j] by {
                    if j == cur[l].len() - 1 {
                        assert(cur[l][j] == id);
                        assert(ext[l].contains(cur[l][i]));
                    }
                }
            }
        }
    }
}

/// Levels below a bound keep the highest one below it.
proof fn lemma_max_dep_below(ds: Seq<usize>, lv: Seq<Option<nat>>, bound: nat)
    requires
        bound > 0,
        forall|k: int| 0 <= k < ds.len() && (#[trigger] lv[ds[k] as int]) is Some ==> lv[ds[k] as int]->0 < bound,
    ensures
        max_dep_level(ds, lv) < bound,
    decreases ds.len(),
{
    if ds.len() > 0 {
        assert forall|k: int| 0 <= k < ds.drop_last().len() && (#[trigger] lv[ds.drop_last()[k] as int]) is Some implies lv[ds.drop_last()[k] as int]->0
            < bound by {
            assert(ds.drop_last()[k] == ds[k]);
        }
        lemma_max_dep_below(ds.drop_last(), lv, bound);
        assert(lv[ds.last() as int] == lv[ds[ds.len() - 1] as int]);
    }
}

/// Every level of a dependency order's schedule holds some product: a
/// product goes to an existing level or to the one right after the
/// highest, never further.
proof fn lemma_levels_nonempty_upto(deps: Seq<Seq<usize>>, order: Seq<usize>, m: int)
    requires
        is_topological_order(deps, order),
        deps.len() <= usize::MAX,
        0 <= m <= order.len(),
    ensures
        forall|l: int| 0 <= l < levels_upto(deps, order, m).len() ==> (#[trigger] levels_upto(deps, order, m)[l]).len() > 0,
    decreases m,
{
    if m > 0 {
        lemma_levels_nonempty_upto(deps, order, m - 1);
        assert(in_range(order, deps.len()));
        lemma_rows(deps, order, m - 1);
        lemma_table_shape(deps, order, m - 1);
        let prev = levels_upto(deps, order, m - 1);
        let t0 = level_table(deps, order, m - 1);
        let id = order[m - 1];
        let ds = deps[id as int];
        let lvl = level_for(ds, t0);
        assert(ready(deps, order.take(m - 1), order[m - 1] as int));
        if ds.len() > 0 {
            assert(order.take(m - 1).contains(ds[0]));
            assert(t0[ds[0] as int] is Some);
            assert(prev.len() > 0);
            assert forall|k: int| 0 <= k < ds.len() && (#[trigger] t0[ds[k] as int]) is Some implies t0[ds[k] as int]->0 < prev.len() by {
                assert(order.take(m - 1).contains(ds[k]));
            }
            lemma_max_dep_below(ds, t0, prev.len());
        }
        assert(lvl <= prev.len());
        let ext = if prev.len() <= lvl {
            prev + Seq::new((lvl + 1 - prev.len()) as nat, |i: int| Seq::<usize>::empty())
        } else {
            prev
        };
        let cur = levels_upto(deps, order, m);
        assert(cur == ext.update(lvl as int, ext[lvl as int].push(id)));
        assert forall|l: int| 0 <= l < cur.len() implies (#[trigger] cur[l]).len() > 0 by {
            if l != lvl {
                assert(l < prev.len());
                assert(cur[l] == prev[l]);
            }
        }
    }
}

/// Each level lists its products in the order they come in `order`.
proof fn lemma_levels_ordered_upto(deps: Seq<Seq<usize>>, order: Seq<usize>, m: int)
    requires
        is_topological_order(deps, order),
        deps.len() <= usize::MAX,
        0 <= m <= order.len(),
    ensures
        forall|l: int, i: int, j: int|
            0 <= l < levels_upto(deps, order, m).len() && 0 <= i < j < levels_upto(deps, order, m)[l].len() ==> order.index_of(
                #[trigger] levels_upto(deps, order, m)[l][i],
            ) < order.index_of(#[trigger] levels_upto(deps, order, m)[l][j]),
        forall|l: int, i: int|
            0 <= l < levels_upto(deps, order, m).len() && 0 <= i < levels_upto(deps, order, m)[l].len() ==> 0 <= order.index_of(
                #[trigger] levels_upto(deps, order, m)[l][i],
            ) < m && order[order.index_of(levels_upto(deps, order, m)[l][i])] == levels_upto(deps, order, m)[l][i],
    decreases m,
{
    if m > 0 {
        lemma_levels_ordered_upto(deps, order, m - 1);
        assert(in_range(order, deps.len()));
        lemma_rows(deps, order, m - 1);
        let prev = levels_upto(deps, order, m - 1);
        let t0 = level_table(deps, order, m - 1);
        let id = order[m - 1];
        let lvl = level_for(deps[id as int], t0);
        let ext = if prev.len() <= lvl {
            prev + Seq::new((lvl + 1 - prev.len()) as nat, |i: int| Seq::<usize>::empty())
        } else {
            prev
        };
        let cur = levels_upto(deps, order, m);
        assert(cur == ext.update(lvl as int, ext[lvl as int].push(id)));
        assert(order.index_of(id) == m - 1) by {
            let k = order.index_of(id);
            assert(order[m - 1] == id);
            assert(order[k] == id);
        }
        assert forall|l: int, i: int|
            0 <= l < cur.len() && 0 <= i < cur[l].len() implies 0 <= order.index_of(#[trigger] cur[l][i]) < m
                && order[order.index_of(cur[l][i])] == cur[l][i] by {
            if l == lvl && i == cur[l].len() - 1 {
            } else {
                assert(l < prev.len());
                assert(cur[l][i] == prev[l][i]);
            }
        }
        assert forall|l: int, i: int, j: int|
            0 <= l < cur.len() && 0 <= i < j < cur[l].len() implies order.index_of(#[trigger] cur[l][i]) < order.index_of(
                #[trigger] cur[l][j],
            ) by {
            assert(l < prev.len());
            if l == lvl && j == cur[l].len() - 1 {
                assert(cur[l][i] == prev[l][i]);
            } else {
                assert(cur[l][i] == prev[l][i]);
                assert(cur[l][j] == prev[l][j]);
            }
        }
    }
}

/// The levels of a dependency order's schedule are all non-empty, and
/// each lists its products in the order they come in `order`.
pub proof fn lemma_levels_nonempty_and_ordered(deps: Seq<Seq<usize>>, order: Seq<usize>)
    requires
        is_topological_order(deps, order),
        deps.len() <= usize::MAX,
    ensures
        forall|l: int|
            0 <= l < levels_upto(deps, order, order.len() as int).len() ==> (#[trigger] levels_upto(
                deps,
                order,
                order.len() as int,
            )[l]).len() > 0,
        forall|l: int, i: int, j: int|
            0 <= l < levels_upto(deps, order, order.len() as int).len() && 0 <= i < j < levels_upto(
                deps,
                order,
                order.len() as int,
            )[l].len() ==> order.index_of(#[trigger] levels_upto(deps, order, order.len() as int)[l][i]) < order.index_of(
                #[trigger] levels_upto(deps, order, order.len() as int)[l][j],
            ),
{
    lemma_levels_nonempty_upto(deps, order, order.len() as int);
    lemma_levels_ordered_upto(deps, order, order.len() as int);
}

/// The schedule law. For a dependency order (every product listed once,
/// after its dependencies), the levels list every product exactly once, in
/// exactly one level; every dependency of a product sits in a strictly
/// lower level; so products in one level never depend on each other.
pub proof fn lemma_levels_schedule(deps: Seq<Seq<usize>>, order: Seq<usize>)
    requires
        is_topological_order(deps, order),
        deps.len() <= usize::MAX,
    ensures
        ({
            let levels = levels_upto(deps, order, order.len() as int);
            &&& forall|v: usize| v < deps.len() ==> #[trigger] in_some_level(levels, v)
            &&& forall|l1: int, l2: int, v: usize|
                0 <= l1 < levels.len() && 0 <= l2 < levels.len() && #[trigger] levels[l1].contains(v)
                    && #[trigger] levels[l2].contains(v) ==> l1 == l2
            &&& forall|l: int| 0 <= l < levels.len() ==> (#[trigger] levels[l]).no_duplicates()
            &&& forall|l: int, j: int| 0 <= l < levels.len() && 0 <= j < levels[l].len() ==> #[trigger] levels[l][j] < deps.len()
            &&& forall|l1: int, l2: int, v: usize, d: usize|
                0 <= l1 < levels.len() && 0 <= l2 < levels.len() && #[trigger] levels[l1].contains(v)
                    && #[trigger] levels[l2].contains(d) && deps[v as int].contains(d) ==> l2 < l1
        }),
{
    let m = order.len() as int;
    assert(in_range(order, deps.len()));
    lemma_rows(deps, order, m);
    lemma_table_shape(deps, order, m);
    let table = level_table(deps, order, m);
    let levels = levels_upto(deps, order, m);
    assert(order.take(m) =~= order);
    assert forall|v: usize| v < deps.len() implies #[trigger] in_some_level(levels, v) by {
        assert(order.contains(v));
        assert(table[v as int] is Some);
        let l = table[v as int]->0;
        assert(levels[l as int].contains(v));
    }
    assert forall|l: int, j: int| 0 <= l < levels.len() && 0 <= j < levels[l].len() implies #[trigger] levels[l][j] < deps.len() by {
        assert(levels[l].contains(levels[l][j]));
    }
    assert forall|l1: int, l2: int, v: usize, d: usize|
        0 <= l1 < levels.len() && 0 <= l2 < levels.len() && #[trigger] levels[l1].contains(v)
            && #[trigger] levels[l2].contains(d) && deps[v as int].contains(d) implies l2 < l1 by {
        let t = choose|t: int| 0 <= t < order.len() && #[trigger] order[t] == v;
        lemma_table_stable(deps, order, t, m);
        lemma_table_shape(deps, order, t);
        let t0 = level_table(deps, order, t);
        assert(ready(deps, order.take(t), order[t] as int));
        let k = choose|k: int| 0 <= k < deps[v as int].len() && #[trigger] deps[v as int][k] == d;
        assert(order.take(t).contains(deps[v as int][k]));
        let s = choose|s: int| 0 <= s < t && #[trigger] order.take(t)[s] == d;
        assert(order[s] == d);
        lemma_table_stable(deps, order, s, t);
        lemma_table_stable(deps, order, s, m);
        assert(t0[d as int] is Some);
        let ld = t0[d as int]->0;
        lemma_max_dep_at_least(deps[v as int], t0, k, ld);
    }
}

/// The highest level among dependencies that all have a level is the
/// level of one of them.
proof fn lemma_max_dep_attained(ds: Seq<usize>, lv: Seq<Option<nat>>)
    requires
        ds.len() > 0,
        forall|k: int| 0 <= k < ds.len() ==> (#[trigger] lv[ds[k] as int]) is Some,
    ensures
        exists|k: int| 0 <= k < ds.len() && lv[ds[k] as int] == Some(max_dep_level(ds, lv)),
    decreases ds.len(),
{
    let dl = ds.drop_last();
    let last = ds[ds.len() - 1];
    assert(ds.last() == last);
    assert(lv[last as int] is Some);
    if ds.len() > 1 {
        assert forall|k: int| 0 <= k < dl.len() implies (#[trigger] lv[dl[k] as int]) is Some by {
            assert(dl[k] == ds[k]);
        }
        lemma_max_dep_attained(dl, lv);
        let k = choose|k: int| 0 <= k < dl.len() && lv[dl[k] as int] == Some(max_dep_level(dl, lv));
        assert(dl[k] == ds[k]);
        if lv[last as int]->0 > max_dep_level(dl, lv) {
            assert(lv[ds[ds.len() - 1] as int] == Some(max_dep_level(ds, lv)));
        } else {
            assert(lv[ds[k] as int] == Some(max_dep_level(ds, lv)));
        }
    } else {
        assert(dl.len() == 0);
        assert(lv[ds[0] as int] == Some(max_dep_level(ds, lv)));
    }
}

/// The level of each product in a dependency order's schedule: 0 for a
/// product without dependencies, else one past the level of one of its
/// dependencies. With every dependency in a strictly lower level (the
/// schedule law), a product's level is one past the highest level among its
/// dependencies: the length of the longest chain of dependencies below it.
pub proof fn lemma_level_is_one_past_highest_dependency(deps: Seq<Seq<usize>>, order: Seq<usize>)
    requires
        is_topological_order(deps, order),
        deps.len() <= usize::MAX,
    ensures
        ({
            let levels = levels_upto(deps, order, order.len() as int);
            forall|l: int, v: usize|
                0 <= l < levels.len() && #[trigger] levels[l].contains(v) ==> (deps[v as int].len() == 0 ==> l == 0) && (
                deps[v as int].len() > 0 ==> exists|l2: int, d: usize|
                    0 <= l2 < levels.len() && deps[v as int].contains(d) && #[trigger] levels[l2].contains(d) && l == l2 + 1)
        }),
{
    let m = order.len() as int;
    assert(in_range(order, deps.len()));
    lemma_rows(deps, order, m);
    lemma_table_shape(deps, order, m);
    let table = level_table(deps, order, m);
    let levels = levels_upto(deps, order, m);
    assert(order.take(m) =~= order);
    assert forall|l: int, v: usize| 0 <= l < levels.len() && #[trigger] levels[l].contains(v) implies (deps[v as int].len()
        == 0 ==> l == 0) && (deps[v as int].len() > 0 ==> exists|l2: int, d: usize|
        0 <= l2 < levels.len() && deps[v as int].contains(d) && #[trigger] levels[l2].contains(d) && l == l2 + 1) by {
        assert(v < deps.len() && table[v as int] == Some(l as nat));
        assert(table[v as int] is Some);
        assert(order.contains(v));
        let t = choose|t: int| 0 <= t < order.len() && #[trigger] order[t] == v;
        lemma_table_stable(deps, order, t, m);
        lemma_table_shape(deps, order, t);
        let t0 = level_table(deps, order, t);
        let ds = deps[v as int];
        assert(level_table(deps, order, t + 1)[v as int] == Some(level_for(ds, t0)));
        assert(l == level_for(ds, t0));
        if ds.len() > 0 {
            assert(ready(deps, order.take(t), order[t] as int));
            assert forall|k: int| 0 <= k < ds.len() implies (#[trigger] t0[ds[k] as int]) is Some by {
                assert(order.take(t).contains(ds[k]));
            }
            lemma_max_dep_attained(ds, t0);
            let k = choose|k: int| 0 <= k < ds.len() && t0[ds[k] as int] == Some(max_dep_level(ds, t0));
            let d = ds[k];
            assert(order.take(t).contains(d));
            let s = choose|s: int| 0 <= s < t && #[trigger] order.take(t)[s] == d;
            assert(order[s] == d);
            lemma_table_stable(deps, order, s, t);
            lemma_table_stable(deps, order, s, m);
            assert(table[d as int] == Some((l - 1) as nat));
            assert(l - 1 < levels.len());
            assert(levels[l - 1].contains(d));
            assert(ds.contains(d));
        }
    }
}

/// Groups the products of `order` into levels that can run in parallel: a
/// product without dependencies goes to level 0, any other one level past
/// the highest level among its dependencies placed before it.
pub fn compute_parallel_levels(graph: &BuildGraph, order: &[usize]) -> (r: Vec<Vec<usize>>)
    requires
        graph.edges_wf(),
        forall|t: int| 0 <= t < order@.len() ==> (#[trigger] order@[t]) < graph@.products.len(),
    ensures
        level_lists(r@) == levels_upto(graph@.dependencies, order@, order@.len() as int),
{
    let ghost deps = graph@.dependencies;
    let n: usize = graph.products().len();
    let mut lv: Vec<Option<usize>> = Vec::new();
    let mut i: usize = 0;
    while i < n
        invariant
            0 <= i <= n,
            lv@.len() == i,
            forall|j: int| 0 <= j < i ==> lv@[j] is None,
        decreases n - i,
    {
        lv.push(None);
        i = i + 1;
    }
    proof {
        assert(nat_levels(lv@) =~= level_table(deps, order@, 0));
    }
    let mut levels: Vec<Vec<usize>> = Vec::new();
    let mut t: usize = 0;
    while t < order.len()
        invariant
            graph.edges_wf(),
            deps == graph@.dependencies,
            n == graph@.products.len(),
            deps.len() == n,
            forall|u: int| 0 <= u < order@.len() ==> (#[trigger] order@[u]) < n,
            0 <= t <= order.len(),
            lv@.len() == n,
            nat_levels(lv@) == level_table(deps, order@, t as int),
            forall|j: int| 0 <= j < n ==> (#[trigger] lv@[j] matches Some(l) ==> l <= t),
            level_lists(levels@) == levels_upto(deps, order@, t as int),
        decreases order.len() - t,
    {
        let id: usize = order[t];
        let ds: &[usize] = graph.get_dependencies(id);
        let ghost table = nat_levels(lv@);
        let mut mx: usize = 0;
        let mut k: usize = 0;
        while k < ds.len()
            invariant
                0 <= k <= ds.len(),
                ds@ == deps[id as int],
                deps.len() == n,
                lv@.len() == n,
                table == nat_levels(lv@),
                forall|c: int, kk: int| 0 <= c < deps.len() && 0 <= kk < deps[c].len() ==> (#[trigger] deps[c][kk]) < n,
                id < n,
                forall|j: int| 0 <= j < n ==> (#[trigger] lv@[j] matches Some(l) ==> l <= t),
                mx == max_dep_level(ds@.take(k as int), table),
                mx <= t,
            decreases ds.len() - k,
        {
            let d: usize = ds[k];
            proof {
                assert(ds@.take(k + 1).drop_last() =~= ds@.take(k as int));
                assert(deps[id as int][k as int] == d);
            }
            match lv[d] {
                Some(l) => {
                    if l > mx {
                        mx = l;
                    }
                },
                None => {},
            }
            k = k + 1;
        }
        proof {
            assert(ds@.take(ds.len() as int) =~= ds@);
        }
        let my: usize = if ds.len() == 0 {
            0
        } else {
            mx + 1
        };
        lv.set(id, Some(my));
        proof {
            assert(nat_levels(lv@) =~= level_table(deps, order@, t + 1));
        }
        let ghost before = level_lists(levels@);
        while levels.len() <= my
            invariant
                levels.len() <= my + 1 || levels.len() == before.len(),
                level_lists(levels@) == before + Seq::new(
                    (levels.len() - before.len()) as nat,
                    |i: int| Seq::<usize>::empty(),
                ),
                levels.len() >= before.len(),
            decreases my + 1 - levels.len(),
        {
            let ghost old_ll = level_lists(levels@);
            let empty_row: Vec<usize> = Vec::new();
            proof {
                assert(empty_row@ =~= Seq::<usize>::empty());
            }
            levels.push(empty_row);
            proof {
                assert(level_lists(levels@) =~= old_ll.push(Seq::<usize>::empty()));
                assert(level_lists(levels@) =~= before + Seq::new(
                    (levels.len() - before.len()) as nat,
                    |i: int| Seq::<usize>::empty(),
                ));
            }
        }
        levels[my].push(id);
        proof {
            assert(level_lists(levels@) =~= levels_upto(deps, order@, t + 1));
        }
        t = t + 1;
    }
    levels
}

/// Some direct dependency of product `id` is in `failed`.
pub open spec fn dep_failed(deps: Seq<Seq<usize>>, id: int, failed: Set<usize>) -> bool {
    exists|k: int| 0 <= k < deps[id].len() && failed.contains(#[trigger] deps[id][k])
}

/// Whether a direct dependency of product `id` has failed. Only direct
/// dependencies count: failure spreads level by level, as each skipped
/// product is itself marked failed.
pub fn has_failed_dependency(graph: &BuildGraph, id: usize, failed: &HashSet<usize>) -> (r: bool)
    requires
        graph.edges_wf(),
        id < graph@.products.len(),
    ensures
        r == dep_failed(graph@.dependencies, id as int, failed@),
{
    broadcast use vstd::std_specs::hash::group_hash_axioms;
    let ds: &[usize] = graph.get_dependencies(id);
    let mut k: usize = 0;
    while k < ds.len()
        invariant
            0 <= k <= ds.len(),
            ds@ == graph@.dependencies[id as int],
            forall|j: int| 0 <= j < k ==> !failed@.contains(#[trigger] ds@[j]),
        decreases ds.len() - k,
    {
        if failed.contains(&ds[k]) {
            return true;
        }
        k = k + 1;
    }
    false
}

/// The chunk size for one batch group: `0` means no limit, the whole group
/// in one chunk. Never 0, since a chunk size of 0 is refused by `chunks`.
pub fn batch_chunk_size(batch_size: usize, n_items: usize) -> (r: usize)
    ensures
        r == if batch_size == 0 {
            if n_items > 1 {
                n_items
            } else {
                1
            }
        } else {
            batch_size
        },
        r > 0,
{
    if batch_size == 0 {
        if n_items > 1 {
            n_items
        } else {
            1
        }
    } else {
        batch_size
    }
}

/// Whether a processor's items take the batch path: batching must be on
/// (an explicit batch size), the processor must support it, and more than
/// one item must actually need rebuilding.
pub fn should_batch(batching_enabled: bool, supports_batch: bool, rebuild_count: usize) -> (r: bool)
    ensures
        r == (batching_enabled && supports_batch && rebuild_count > 1),
{
    batching_enabled && supports_batch && rebuild_count > 1
}

/// The concurrency limit of a processor: the smaller of the limit the user
/// set and the processor's own cap, whichever are present.
pub fn effective_max_jobs(user_set: Option<usize>, static_cap: Option<usize>) -> (r: Option<usize>)
    ensures
        r == match (user_set, static_cap) {
            (Some(c), Some(m)) => Some(if c < m {
                c
            } else {
                m
            }),
            (Some(c), None) => Some(c),
            (None, Some(m)) => Some(m),
            (None, None) => None,
        },
{
    match (user_set, static_cap) {
        (Some(c), Some(m)) => Some(if c < m {
            c
        } else {
            m
        }),
        (Some(c), None) => Some(c),
        (None, Some(m)) => Some(m),
        (None, None) => None,
    }
}

/// How many non-batch items each worker thread takes: the items spread over
/// `parallel` workers (at least one), rounded up, and at least one.
pub fn non_batch_chunk_size(n_items: usize, parallel: usize) -> (r: usize)
    ensures
        ({
            let p: int = if parallel > 1 {
                parallel as int
            } else {
                1
            };
            let q: int = (n_items as int + p - 1) / p;
            r == if q > 1 {
                q
            } else {
                1
            }
        }),
        r > 0,
{
    let p: usize = if parallel > 1 {
        parallel
    } else {
        1
    };
    let base: usize = n_items / p;
    let q: usize = if n_items % p == 0 {
        base
    } else {
        proof {
            assert(p >= 2);
            assert(base <= n_items / 2) by (nonlinear_arith)
                requires
                    p >= 2,
                    base == n_items / p,
            ;
        }
        base + 1
    };
    proof {
        assert((n_items as int + p as int - 1) / (p as int) == q) by (nonlinear_arith)
            requires
                p >= 1,
                base == n_items / p,
                q == base + if n_items % p == 0 {
                    0int
                } else {
                    1int
                },
        ;
    }
    if q > 1 {
        q
    } else {
        1
    }
}

/// Whether the build stops after a level: on interruption, or, unless
/// asked to keep going, when the level recorded an error.
pub fn stop_after_level(interrupted: bool, keep_going: bool, level_had_errors: bool) -> (r: bool)
    ensures
        r == (interrupted || (!keep_going && level_had_errors)),
{
    interrupted || (!keep_going && level_had_errors)
}

/// One product's classification. `input_checksum` is empty when the
/// checksum could not be computed (which forces a build).
#[derive(Debug)]
pub struct ClassifiedProduct {
    pub id: usize,
    pub action: ProductAction,
    pub input_checksum: String,
}

/// The result of the classification pass: counts, and one entry per
/// product in the order classified.
#[derive(Debug)]
pub struct Classification {
    pub skip_count: usize,
    pub restore_count: usize,
    pub build_count: usize,
    pub products: Vec<ClassifiedProduct>,
}

/// How many of `actions` are `a`.
pub open spec fn count_action(actions: Seq<ProductAction>, a: ProductAction) -> nat
    decreases actions.len(),
{
    if actions.len() == 0 {
        0
    } else {
        count_action(actions.drop_last(), a) + if actions.last() == a {
            1nat
        } else {
            0nat
        }
    }
}

/// The products of `order` whose recorded action (in `actions`, position by
/// position) restores or builds them: their outputs change in this run.
pub open spec fn changed_set(order: Seq<usize>, actions: Seq<ProductAction>) -> Set<usize> {
    Set::new(|v: usize| exists|t: int| 0 <= t < actions.len() && #[trigger] order[t] == v && actions[t] != ProductAction::Skip)
}

/// The actions of a list of classified products.
pub open spec fn actions_of(v: Seq<ClassifiedProduct>) -> Seq<ProductAction> {
    v.map_values(|c: ClassifiedProduct| c.action)
}

/// The classification pass in progress: products are classified one at a
/// time in the given order, so that a product whose dependency will be
/// restored or rebuilt is itself rebuilt. The caller computes each
/// product's input checksum and asks the cache, between `next` and
/// `record`.
pub struct ClassifyRun {
    order: Vec<usize>,
    will_change: HashSet<usize>,
    result: Classification,
    force: bool,
}

impl ClassifyRun {
    /// The order being classified.
    pub closed spec fn order(&self) -> Seq<usize> {
        self.order@
    }

    /// The actions recorded so far, one per classified product.
    pub closed spec fn actions(&self) -> Seq<ProductAction> {
        actions_of(self.result.products@)
    }

    /// The input checksums recorded so far, one per classified product
    /// (empty where the checksum could not be computed).
    pub closed spec fn checksums(&self) -> Seq<Seq<char>> {
        self.result.products@.map_values(|c: ClassifiedProduct| c.input_checksum@)
    }

    /// Whether the build is forced.
    pub closed spec fn forced(&self) -> bool {
        self.force
    }

    /// The run's invariant: the recorded entries follow the order, the
    /// counts count them, the changed set is the one they determine, and
    /// every product with a changed dependency, or every product at all in
    /// a forced build, was built.
    pub closed spec fn wf(&self, deps: Seq<Seq<usize>>) -> bool {
        let acts = actions_of(self.result.products@);
        &&& acts.len() <= self.order@.len()
        &&& forall|t: int| 0 <= t < acts.len() ==> (#[trigger] self.result.products@[t]).id == self.order@[t]
        &&& forall|t: int| 0 <= t < self.order@.len() ==> (#[trigger] self.order@[t]) < deps.len()
        &&& self.will_change@ == changed_set(self.order@, acts)
        &&& self.result.skip_count == count_action(acts, ProductAction::Skip)
        &&& self.result.restore_count == count_action(acts, ProductAction::Restore)
        &&& self.result.build_count == count_action(acts, ProductAction::Build)
        &&& self.result.skip_count + self.result.restore_count + self.result.build_count == acts.len()
        &&& forall|t: int|
            0 <= t < acts.len() && (self.force || dep_failed(deps, self.order@[t] as int, changed_set(self.order@, acts.take(t))))
                ==> #[trigger] acts[t] == ProductAction::Build
    }

    /// Starts classifying the products of `order`.
    pub fn start(graph: &BuildGraph, order: &[usize], force: bool) -> (r: ClassifyRun)
        requires
            forall|t: int| 0 <= t < order@.len() ==> (#[trigger] order@[t]) < graph@.products.len(),
            edges_ok(graph@),
        ensures
            r.wf(graph@.dependencies),
            r.order() == order@,
            r.actions() == Seq::<ProductAction>::empty(),
            r.checksums() == Seq::<Seq<char>>::empty(),
            r.forced() == force,
    {
        broadcast use vstd::std_specs::hash::group_hash_axioms;
        let mut v: Vec<usize> = Vec::new();
        let mut i: usize = 0;
        while i < order.len()
            invariant
                0 <= i <= order.len(),
                v@ == order@.take(i as int),
            decreases order.len() - i,
        {
            v.push(order[i]);
            proof {
                assert(v@ =~= order@.take(i + 1));
            }
            i = i + 1;
        }
        proof {
            assert(v@ =~= order@);
        }
        let r = ClassifyRun {
            order: v,
            will_change: HashSet::new(),
            result: Classification { skip_count: 0, restore_count: 0, build_count: 0, products: Vec::new() },
            force,
        };
        proof {
            assert(actions_of(r.result.products@) =~= Seq::<ProductAction>::empty());
            assert(r.checksums() =~= Seq::<Seq<char>>::empty());
            assert(r.will_change@ =~= changed_set(r.order@, actions_of(r.result.products@)));
        }
        r
    }

    /// The next product to classify, with whether one of its dependencies
    /// will change in this run; `None` when every product was classified.
    pub fn next(&self, graph: &BuildGraph) -> (r: Option<(usize, bool)>)
        requires
            self.wf(graph@.dependencies),
            graph.edges_wf(),
        ensures
            r is None <==> self.actions().len() == self.order().len(),
            r matches Some(p) ==> p.0 == self.order()[self.actions().len() as int] && p.1 == dep_failed(
                graph@.dependencies,
                p.0 as int,
                changed_set(self.order(), self.actions()),
            ),
    {
        let pos: usize = self.result.products.len();
        if pos >= self.order.len() {
            return None;
        }
        let id: usize = self.order[pos];
        let changed: bool = has_failed_dependency(graph, id, &self.will_change);
        Some((id, changed))
    }

    /// Records the next product's classification. `probe` is `None` when
    /// its input checksum could not be computed, which builds it; otherwise
    /// the checksum and the cache's two answers, as the policy reads them.
    pub fn record(&mut self, graph: &BuildGraph, policy: &IncrementalPolicy, probe: Option<(String, bool, bool)>)
        requires
            old(self).wf(graph@.dependencies),
            graph.edges_wf(),
            old(self).actions().len() < old(self).order().len(),
        ensures
            final(self).wf(graph@.dependencies),
            final(self).order() == old(self).order(),
            final(self).forced() == old(self).forced(),
            final(self).checksums() == old(self).checksums().push(
                match probe {
                    None => Seq::<char>::empty(),
                    Some(p) => p.0@,
                },
            ),
            final(self).actions() == old(self).actions().push(
                match probe {
                    None => ProductAction::Build,
                    Some(p) => incremental_action(
                        old(self).forced(),
                        dep_failed(
                            graph@.dependencies,
                            old(self).order()[old(self).actions().len() as int] as int,
                            changed_set(old(self).order(), old(self).actions()),
                        ),
                        p.1,
                        p.2,
                    ),
                },
            ),
    {
        broadcast use vstd::std_specs::hash::group_hash_axioms;
        let ghost acts0 = actions_of(self.result.products@);
        let ghost deps = graph@.dependencies;
        let pos: usize = self.result.products.len();
        let total: usize = self.order.len();
        let id: usize = self.order[pos];
        let dep_changed: bool = has_failed_dependency(graph, id, &self.will_change);
        let (action, checksum) = match probe {
            None => (ProductAction::Build, String::new()),
            Some((cs, needs_rebuild, can_restore)) => (policy.classify(self.force, dep_changed, needs_rebuild, can_restore), cs),
        };
        proof {
            if self.force || dep_changed {
                assert(action == ProductAction::Build);
            }
            assert(acts0.len() == self.result.products@.len());
            assert(self.result.skip_count + self.result.restore_count + self.result.build_count < total);
        }
        match action {
            ProductAction::Skip => {
                self.result.skip_count = self.result.skip_count + 1;
            },
            ProductAction::Restore => {
                self.result.restore_count = self.result.restore_count + 1;
                self.will_change.insert(id);
            },
            ProductAction::Build => {
                self.result.build_count = self.result.build_count + 1;
                self.will_change.insert(id);
            },
        }
        let ghost cs0 = self.checksums();
        let ghost cs_new = checksum@;
        self.result.products.push(ClassifiedProduct { id, action, input_checksum: checksum });
        proof {
            assert(self.checksums() =~= cs0.push(cs_new));
            let acts = actions_of(self.result.products@);
            assert(acts =~= acts0.push(action));
            assert(acts.drop_last() =~= acts0);
            assert(self.will_change@ =~= changed_set(self.order@, acts)) by {
                assert forall|v: usize| #[trigger] changed_set(self.order@, acts).contains(v) <==> self.will_change@.contains(v) by {
                    if changed_set(self.order@, acts).contains(v) {
                        let t = choose|t: int| 0 <= t < acts.len() && #[trigger] self.order@[t] == v && acts[t] != ProductAction::Skip;
                        if t < acts0.len() {
                            assert(acts0[t] == acts[t]);
                            assert(changed_set(self.order@, acts0).contains(v));
                        }
                    }
                    if changed_set(self.order@, acts0).contains(v) {
                        let t = choose|t: int| 0 <= t < acts0.len() && #[trigger] self.order@[t] == v && acts0[t] != ProductAction::Skip;
                        assert(acts[t] == acts0[t]);
                    }
                    if v == id && action != ProductAction::Skip {
                        assert(acts[pos as int] == action);
                    }
                }
            }
            assert forall|t: int|
                0 <= t < acts.len() && (self.force || dep_failed(deps, self.order@[t] as int, changed_set(self.order@, acts.take(t))))
                    implies #[trigger] acts[t] == ProductAction::Build by {
                if t < acts0.len() {
                    assert(acts.take(t) =~= acts0.take(t));
                    assert(acts[t] == acts0[t]);
                } else {
                    assert(acts.take(t) =~= acts0);
                }
            }
        }
    }

    /// The finished classification.
    pub fn finish(self, graph: &BuildGraph) -> (r: Classification)
        requires
            self.wf(graph@.dependencies),
            self.actions().len() == self.order().len(),
        ensures
            r.products@.len() == self.order().len(),
            forall|t: int| 0 <= t < r.products@.len() ==> (#[trigger] r.products@[t]).id == self.order()[t],
            actions_of(r.products@) == self.actions(),
            forall|t: int| 0 <= t < r.products@.len() ==> (#[trigger] r.products@[t]).input_checksum@ == self.checksums()[t],
            r.skip_count == count_action(self.actions(), ProductAction::Skip),
            r.restore_count == count_action(self.actions(), ProductAction::Restore),
            r.build_count == count_action(self.actions(), ProductAction::Build),
            r.skip_count + r.restore_count + r.build_count == self.order().len(),
            forall|t: int|
                0 <= t < r.products@.len() && (self.forced() || dep_failed(
                    graph@.dependencies,
                    self.order()[t] as int,
                    changed_set(self.order(), self.actions().take(t)),
                )) ==> #[trigger] r.products@[t].action == ProductAction::Build,
    {
        proof {
            assert forall|t: int| 0 <= t < self.result.products@.len() implies #[trigger] self.result.products@[t].action
                == actions_of(self.result.products@)[t] by {}
        }
        self.result
    }
}

} // verus!
