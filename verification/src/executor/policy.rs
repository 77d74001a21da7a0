//! The incremental build policy: whether a product is skipped, restored from
//! the cache, or built.

use vstd::prelude::*;
use crate::object_store::{CacheEntry, ExplainAction, explain_action, explains};
use crate::text::strs;

verus! {

/// What action should be taken for a product.
#[derive(Debug, Clone, Copy, PartialEq, Eq, Structural)]
pub enum ProductAction {
    /// Outputs are up-to-date: skip execution entirely.
    Skip,
    /// Outputs can be restored from the cache without re-executing.
    Restore,
    /// The product must be executed (new, changed, or forced).
    Build,
}

/// The decision of the incremental policy, from the two cache answers.
pub open spec fn incremental_action(force: bool, dep_changed: bool, needs_rebuild: bool, can_restore: bool) -> ProductAction {
    if !force && !dep_changed && !needs_rebuild {
        ProductAction::Skip
    } else if !force && !dep_changed && can_restore {
        ProductAction::Restore
    } else {
        ProductAction::Build
    }
}

/// The standard incremental build policy: skip unchanged, restore from the
/// cache when possible, otherwise build.
#[derive(Debug, Clone, Copy)]
pub struct IncrementalPolicy;

/// Decides whether each product is skipped, restored from the cache, or
/// built, from what the cache says of it. `IncrementalPolicy` is the
/// standard one; another policy may add conditions of its own, such as
/// expiry by age or always rebuilding.
pub trait BuildPolicy {
    /// Classifies one product. `needs_rebuild` is whether the cache holds no
    /// up-to-date result for the product's descriptor; `can_restore` whether
    /// its outputs can be restored from the cache. `dep_changed` is whether a
    /// dependency will be rebuilt or restored in this run, so that the
    /// product's outputs cannot be trusted even where its descriptor matches.
    fn classify(&self, force: bool, dep_changed: bool, needs_rebuild: bool, can_restore: bool) -> ProductAction;

    /// What would be done with a product and why, given its cache entry, its
    /// input checksum, which outputs exist on disk and which of the entry's
    /// objects are stored.
    fn explain(
        &self,
        force: bool,
        entry: Option<&CacheEntry>,
        input_checksum: &str,
        outputs: &Vec<String>,
        exists: &Vec<bool>,
        stored: &Vec<bool>,
    ) -> ExplainAction
        requires
            exists@.len() == outputs@.len(),
    ;
}

impl IncrementalPolicy {
    /// Whether the cache must be asked if the product can be restored. The
    /// question warms the local cache from a remote, so it is only asked
    /// when its answer decides the action.
    pub fn wants_restore_probe(&self, force: bool, dep_changed: bool, needs_rebuild: bool) -> (r: bool)
        ensures
            r == (!force && !dep_changed && needs_rebuild),
    {
        !force && !dep_changed && needs_rebuild
    }
}

impl BuildPolicy for IncrementalPolicy {
    /// Skips a product that nothing forces, whose dependencies are unchanged
    /// and whose result is up to date; restores it under the same conditions
    /// when the cache can; builds it otherwise. `can_restore` is only read
    /// when `wants_restore_probe` said so.
    fn classify(&self, force: bool, dep_changed: bool, needs_rebuild: bool, can_restore: bool) -> (r: ProductAction)
        ensures
            r == incremental_action(force, dep_changed, needs_rebuild, can_restore),
    {
        if !force && !dep_changed && !needs_rebuild {
            ProductAction::Skip
        } else if !force && !dep_changed && can_restore {
            ProductAction::Restore
        } else {
            ProductAction::Build
        }
    }

    /// The cache's explanation of the product.
    fn explain(
        &self,
        force: bool,
        entry: Option<&CacheEntry>,
        input_checksum: &str,
        outputs: &Vec<String>,
        exists: &Vec<bool>,
        stored: &Vec<bool>,
    ) -> (r: ExplainAction)
        ensures
            explains(
                r,
                force,
                match entry {
                    Some(e) => Some(*e),
                    None => None,
                },
                input_checksum@,
                strs(outputs@),
                exists@,
                stored@,
            ),
    {
        explain_action(force, entry, input_checksum, outputs, exists, stored)
    }
}

/// A forced build, or a changed dependency, always builds: neither a
/// matching descriptor nor a restorable cache entry can skip or restore it.
pub proof fn lemma_force_or_dep_change_builds(force: bool, dep_changed: bool, needs_rebuild: bool, can_restore: bool)
    requires
        force || dep_changed,
    ensures
        incremental_action(force, dep_changed, needs_rebuild, can_restore) == ProductAction::Build,
{
}

/// A product is skipped exactly when nothing forces it, no dependency
/// changed, and the cache holds its up-to-date result; the restore answer
/// never matters then.
pub proof fn lemma_skip_iff_up_to_date(force: bool, dep_changed: bool, needs_rebuild: bool, can_restore: bool)
    ensures
        (incremental_action(force, dep_changed, needs_rebuild, can_restore) == ProductAction::Skip) <==> (!force
            && !dep_changed && !needs_rebuild),
        !force && !dep_changed && !needs_rebuild ==> incremental_action(force, dep_changed, needs_rebuild, true)
            == incremental_action(force, dep_changed, needs_rebuild, false),
{
}

} // verus!
