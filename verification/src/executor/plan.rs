//! How one level of the schedule is set up: which products are skipped
//! before any checksum is read, and how the rest are grouped into batch
//! groups and single items.

use vstd::prelude::*;
use std::collections::HashSet;
use crate::executor::{dep_failed, has_failed_dependency, should_batch};
use crate::graph::BuildGraph;
use crate::text::{str_eq, strs, strings_contain};

verus! {

/// The ids of `level`, in order, for which `keep` holds.
pub open spec fn kept_ids(level: Seq<usize>, keep: spec_fn(usize) -> bool) -> Seq<usize>
    decreases level.len(),
{
    if level.len() == 0 {
        Seq::empty()
    } else {
        let rest = kept_ids(level.drop_last(), keep);
        if keep(level.last()) {
            rest.push(level.last())
        } else {
            rest
        }
    }
}

/// What happens to a level's products before their checksums are read:
/// skipped because a dependency failed; skipped because their processor
/// failed in an earlier level (when not keeping going); or to be checked.
#[derive(Debug, Clone)]
pub struct LevelSkips {
    pub dep_failed: Vec<usize>,
    pub processor_failed: Vec<usize>,
    pub to_check: Vec<usize>,
}

/// A product skipped for a failed dependency.
pub open spec fn skip_for_dep(graph: BuildGraph, failed: Set<usize>, id: usize) -> bool {
    dep_failed(graph@.dependencies, id as int, failed)
}

/// A product skipped because its processor failed earlier.
pub open spec fn skip_for_processor(graph: BuildGraph, failed: Set<usize>, failed_processors: Seq<Seq<char>>, keep_going: bool, id: usize) -> bool {
    !skip_for_dep(graph, failed, id) && !keep_going && failed_processors.contains(graph@.products[id as int].processor)
}

/// Sorts a level's products before their checksums are read: those with a
/// failed direct dependency are skipped (and then count as failed); of the
/// rest, without keep-going, those whose processor failed in an earlier
/// level are skipped too; the others are to be checked. Each list keeps
/// the level's order. `failed` is the set of failed products before this
/// level.
pub fn plan_level_skips(
    graph: &BuildGraph,
    level: &Vec<usize>,
    failed: &HashSet<usize>,
    failed_processors: &Vec<String>,
    keep_going: bool,
) -> (r: LevelSkips)
    requires
        graph.edges_wf(),
        forall|i: int| 0 <= i < level@.len() ==> #[trigger] level@[i] < graph@.products.len(),
    ensures
        r.dep_failed@ == kept_ids(level@, |id: usize| skip_for_dep(*graph, failed@, id)),
        r.processor_failed@ == kept_ids(level@, |id: usize| skip_for_processor(*graph, failed@, strs(failed_processors@), keep_going, id)),
        r.to_check@ == kept_ids(
            level@,
            |id: usize| !skip_for_dep(*graph, failed@, id) && !skip_for_processor(*graph, failed@, strs(failed_processors@), keep_going, id),
        ),
{
    let ghost p1 = |id: usize| skip_for_dep(*graph, failed@, id);
    let ghost p2 = |id: usize| skip_for_processor(*graph, failed@, strs(failed_processors@), keep_going, id);
    let ghost p3 = |id: usize| !skip_for_dep(*graph, failed@, id) && !skip_for_processor(*graph, failed@, strs(failed_processors@), keep_going, id);
    let mut a: Vec<usize> = Vec::new();
    let mut b: Vec<usize> = Vec::new();
    let mut c: Vec<usize> = Vec::new();
    let mut i: usize = 0;
    while i < level.len()
        invariant
            0 <= i <= level.len(),
            graph.edges_wf(),
            forall|q: int| 0 <= q < level@.len() ==> #[trigger] level@[q] < graph@.products.len(),
            p1 == (|id: usize| skip_for_dep(*graph, failed@, id)),
            p2 == (|id: usize| skip_for_processor(*graph, failed@, strs(failed_processors@), keep_going, id)),
            p3 == (|id: usize| !skip_for_dep(*graph, failed@, id) && !skip_for_processor(*graph, failed@, strs(failed_processors@), keep_going, id)),
            a@ == kept_ids(level@.take(i as int), p1),
            b@ == kept_ids(level@.take(i as int), p2),
            c@ == kept_ids(level@.take(i as int), p3),
        decreases level.len() - i,
    {
        let id: usize = level[i];
        proof {
            let t = level@.take(i + 1);
            assert(t.drop_last() =~= level@.take(i as int));
            assert(t.last() == id);
        }
        if has_failed_dependency(graph, id, failed) {
            a.push(id);
        } else {
            let product = graph.get_product(id).unwrap();
            let proc_failed: bool = strings_contain(failed_processors, product.processor.as_str());
            if !keep_going && proc_failed {
                b.push(id);
            } else {
                c.push(id);
            }
        }
        i = i + 1;
    }
    proof {
        assert(level@.take(level@.len() as int) =~= level@);
    }
    LevelSkips { dep_failed: a, processor_failed: b, to_check: c }
}

/// A product to process in a level, with its input checksum as read now,
/// and whether it needs rebuilding (forced, or not up to date in the
/// cache).
#[derive(Debug, Clone)]
pub struct WorkItem {
    pub product_id: usize,
    pub input_checksum: String,
    pub needs_rebuild: bool,
}

/// A level's work: the groups run as batches, by processor, and the items
/// run one by one.
#[derive(Debug, Clone)]
pub struct LevelWork {
    pub batch_groups: Vec<(String, Vec<WorkItem>)>,
    pub non_batch_items: Vec<WorkItem>,
}

/// The processor of a work item's product.
pub open spec fn item_processor(graph: BuildGraph, item: WorkItem) -> Seq<char> {
    graph@.products[item.product_id as int].processor
}

/// The position of the group of processor `p`.
pub open spec fn group_index(groups: Seq<(Seq<char>, Seq<WorkItem>)>, p: Seq<char>, k: int) -> Option<nat>
    decreases groups.len() - k,
{
    if k < 0 || k >= groups.len() {
        None
    } else if groups[k].0 == p {
        Some(k as nat)
    } else {
        group_index(groups, p, k + 1)
    }
}

/// The items grouped by processor: the processors in order of first
/// appearance, each with its items in order.
pub open spec fn grouped(graph: BuildGraph, items: Seq<WorkItem>) -> Seq<(Seq<char>, Seq<WorkItem>)>
    decreases items.len(),
{
    if items.len() == 0 {
        Seq::empty()
    } else {
        let g = grouped(graph, items.drop_last());
        let x = items.last();
        let p = item_processor(graph, x);
        match group_index(g, p, 0) {
            Some(k) => g.update(k as int, (p, g[k as int].1.push(x))),
            None => g.push((p, seq![x])),
        }
    }
}

/// How many of the items need rebuilding.
pub open spec fn rebuild_count(items: Seq<WorkItem>) -> nat
    decreases items.len(),
{
    if items.len() == 0 {
        0
    } else {
        rebuild_count(items.drop_last()) + if items.last().needs_rebuild {
            1nat
        } else {
            0nat
        }
    }
}

/// A group runs as a batch: batching is on, its processor supports it,
/// and more than one of its items needs rebuilding.
pub open spec fn batched(batching_enabled: bool, batch_processors: Seq<Seq<char>>, group: (Seq<char>, Seq<WorkItem>)) -> bool {
    batching_enabled && batch_processors.contains(group.0) && rebuild_count(group.1) > 1
}

/// The groups run as batches, in order.
pub open spec fn batch_groups_of(groups: Seq<(Seq<char>, Seq<WorkItem>)>, batching_enabled: bool, batch_processors: Seq<Seq<char>>) -> Seq<
    (Seq<char>, Seq<WorkItem>),
>
    decreases groups.len(),
{
    if groups.len() == 0 {
        Seq::empty()
    } else {
        let rest = batch_groups_of(groups.drop_last(), batching_enabled, batch_processors);
        if batched(batching_enabled, batch_processors, groups.last()) {
            rest.push(groups.last())
        } else {
            rest
        }
    }
}

/// The items of the groups not run as batches, group after group.
pub open spec fn single_items_of(groups: Seq<(Seq<char>, Seq<WorkItem>)>, batching_enabled: bool, batch_processors: Seq<Seq<char>>) -> Seq<
    WorkItem,
>
    decreases groups.len(),
{
    if groups.len() == 0 {
        Seq::empty()
    } else {
        let rest = single_items_of(groups.drop_last(), batching_enabled, batch_processors);
        if batched(batching_enabled, batch_processors, groups.last()) {
            rest
        } else {
            rest + groups.last().1
        }
    }
}

/// The abstract groups.
pub open spec fn groups_view(g: Seq<(String, Vec<WorkItem>)>) -> Seq<(Seq<char>, Seq<WorkItem>)> {
    g.map_values(|e: (String, Vec<WorkItem>)| (e.0@, e.1@))
}

proof fn lemma_group_index(groups: Seq<(Seq<char>, Seq<WorkItem>)>, p: Seq<char>, k: int)
    requires
        0 <= k,
    ensures
        group_index(groups, p, k) matches Some(i) ==> k <= i < groups.len() && groups[i as int].0 == p,
    decreases groups.len() - k,
{
    if k < groups.len() {
        lemma_group_index(groups, p, k + 1);
    }
}

/// The position of the group of processor `p`.
fn find_group(groups: &Vec<(String, Vec<WorkItem>)>, p: &str) -> (r: Option<usize>)
    ensures
        r matches Some(k) ==> group_index(groups_view(groups@), p@, 0) == Some(k as nat) && k < groups@.len(),
        r is None ==> group_index(groups_view(groups@), p@, 0) is None,
{
    let mut k: usize = 0;
    while k < groups.len()
        invariant
            0 <= k <= groups.len(),
            group_index(groups_view(groups@), p@, 0) == group_index(groups_view(groups@), p@, k as int),
        decreases groups.len() - k,
    {
        if str_eq(groups[k].0.as_str(), p) {
            return Some(k);
        }
        k = k + 1;
    }
    None
}

/// Groups a level's work items by processor and splits the groups: a
/// group runs as a batch when batching is on, its processor supports it
/// (`batch_processors`) and more than one of its items needs rebuilding;
/// the items of the other groups run one by one.
pub fn group_level_work(graph: &BuildGraph, items: Vec<WorkItem>, batching_enabled: bool, batch_processors: &Vec<String>) -> (r: LevelWork)
    requires
        forall|i: int| 0 <= i < items@.len() ==> (#[trigger] items@[i]).product_id < graph@.products.len(),
    ensures
        groups_view(r.batch_groups@) == batch_groups_of(grouped(*graph, items@), batching_enabled, strs(batch_processors@)),
        r.non_batch_items@ == single_items_of(grouped(*graph, items@), batching_enabled, strs(batch_processors@)),
{
    let ghost all = items@;
    let mut rest: Vec<WorkItem> = items;
    let mut groups: Vec<(String, Vec<WorkItem>)> = Vec::new();
    let total: usize = rest.len();
    let mut i: usize = 0;
    proof {
        assert(groups_view(groups@) =~= grouped(*graph, all.take(0)));
    }
    while rest.len() > 0
        invariant
            0 <= i <= all.len(),
            all.len() == total,
            rest@ == all.skip(i as int),
            forall|q: int| 0 <= q < all.len() ==> (#[trigger] all[q]).product_id < graph@.products.len(),
            groups_view(groups@) == grouped(*graph, all.take(i as int)),
        decreases rest.len(),
    {
        proof {
            assert(rest@[0] == all[i as int]);
        }
        let item: WorkItem = rest.remove(0);
        let product = graph.get_product(item.product_id).unwrap();
        let p: String = product.processor.clone();
        let ghost g0 = groups_view(groups@);
        let ghost x = item;
        proof {
            let t = all.take(i + 1);
            assert(t.drop_last() =~= all.take(i as int));
            assert(t.last() == x);
            assert(item_processor(*graph, x) == p@);
        }
        match find_group(&groups, p.as_str()) {
            Some(k) => {
                proof {
                    lemma_group_index(g0, p@, 0);
                    assert(groups@[k as int].0@ == p@);
                }
                let ghost e0 = groups@[k as int];
                let entry: &mut (String, Vec<WorkItem>) = &mut groups[k];
                entry.1.push(item);
                proof {
                    assert(groups@[k as int].0 == e0.0);
                    assert(groups@[k as int].1@ == e0.1@.push(x));
                }
                proof {
                    assert(groups_view(groups@) =~= g0.update(k as int, (p@, g0[k as int].1.push(x))));
                }
            },
            None => {
                let mut v: Vec<WorkItem> = Vec::new();
                v.push(item);
                groups.push((p, v));
                proof {
                    assert(groups_view(groups@) =~= g0.push((p@, seq![x])));
                }
            },
        }
        proof {
            assert(rest@ =~= all.skip(i + 1));
        }
        i = i + 1;
    }
    proof {
        assert(all.take(i as int) =~= all);
    }
    let ghost gv = groups_view(groups@);
    let mut batch: Vec<(String, Vec<WorkItem>)> = Vec::new();
    let mut single: Vec<WorkItem> = Vec::new();
    let count: usize = groups.len();
    let mut j: usize = 0;
    proof {
        assert(groups_view(batch@) =~= batch_groups_of(gv.take(0), batching_enabled, strs(batch_processors@)));
        assert(single@ =~= single_items_of(gv.take(0), batching_enabled, strs(batch_processors@)));
    }
    while groups.len() > 0
        invariant
            0 <= j <= gv.len(),
            gv.len() == count,
            groups_view(groups@) == gv.skip(j as int),
            groups_view(batch@) == batch_groups_of(gv.take(j as int), batching_enabled, strs(batch_processors@)),
            single@ == single_items_of(gv.take(j as int), batching_enabled, strs(batch_processors@)),
        decreases groups.len(),
    {
        proof {
            assert(groups_view(groups@).len() == groups@.len());
            assert(j < gv.len());
            assert(groups_view(groups@)[0] == gv[j as int]);
        }
        let ghost gb = groups@;
        let (name, mut members) = groups.remove(0);
        proof {
            assert(groups@ == gb.remove(0));
            assert forall|k: int| 0 <= k < groups@.len() implies groups_view(groups@)[k] == gv.skip(j + 1)[k] by {
                assert(groups@[k] == gb[k + 1]);
                assert(groups_view(gb)[k + 1] == gv.skip(j as int)[k + 1]);
            }
        }
        let ghost gj = (name@, members@);
        proof {
            assert(gj == gv[j as int]);
            let t = gv.take(j + 1);
            assert(t.drop_last() =~= gv.take(j as int));
            assert(t.last() == gj);
        }
        let mut n: usize = 0;
        let mut q: usize = 0;
        while q < members.len()
            invariant
                0 <= q <= members.len(),
                n == rebuild_count(members@.take(q as int)),
                n <= q,
            decreases members.len() - q,
        {
            proof {
                assert(members@.take(q + 1).drop_last() =~= members@.take(q as int));
            }
            if members[q].needs_rebuild {
                n = n + 1;
            }
            q = q + 1;
        }
        proof {
            assert(members@.take(members@.len() as int) =~= members@);
        }
        let supports: bool = strings_contain(batch_processors, name.as_str());
        if should_batch(batching_enabled, supports, n) {
            let ghost b0 = groups_view(batch@);
            batch.push((name, members));
            proof {
                assert(groups_view(batch@) =~= b0.push(gj));
            }
        } else {
            let ghost s0 = single@;
            single.append(&mut members);
            proof {
                assert(single@ =~= s0 + gj.1);
            }
        }
        proof {
            assert(groups_view(groups@) =~= gv.skip(j + 1));
        }
        j = j + 1;
    }
    proof {
        assert(gv.take(j as int) =~= gv);
    }
    LevelWork { batch_groups: batch, non_batch_items: single }
}

} // verus!
