//! The cache's decisions about one product, from what its index entry says
//! and what is on disk: whether it must be rebuilt, whether its outputs can
//! be restored, and the explanation shown to the user.

use vstd::prelude::*;
use crate::config::RestoreMethod;
use crate::text::{str_eq, strs};

verus! {

/// Why a product is rebuilt or restored.
#[derive(Debug, Clone, PartialEq, Eq)]
pub enum RebuildReason {
    /// No cache entry exists for the product.
    NoCacheEntry,
    /// The inputs changed since the last build.
    InputsChanged,
    /// This output is missing.
    OutputMissing(String),
    /// The build was forced.
    Force,
}

/// How a reason is shown.
pub open spec fn reason_text(r: RebuildReason) -> Seq<char> {
    match r {
        RebuildReason::NoCacheEntry => "no cache entry"@,
        RebuildReason::InputsChanged => "inputs changed"@,
        RebuildReason::OutputMissing(p) => "output missing: "@ + p@,
        RebuildReason::Force => "forced"@,
    }
}

impl RebuildReason {
    /// The reason as it is shown.
    pub fn to_string(&self) -> (r: String)
        ensures
            r@ == reason_text(*self),
    {
        match self {
            RebuildReason::NoCacheEntry => String::from_str("no cache entry"),
            RebuildReason::InputsChanged => String::from_str("inputs changed"),
            RebuildReason::OutputMissing(p) => {
                let mut s: String = String::from_str("output missing: ");
                s.append(p.as_str());
                s
            },
            RebuildReason::Force => String::from_str("forced"),
        }
    }
}

/// What will be done with a product, and why.
#[derive(Debug, Clone, PartialEq, Eq)]
pub enum ExplainAction {
    /// Up to date: skipped.
    Skip,
    /// Restored from the cache.
    Restore(RebuildReason),
    /// Rebuilt.
    Rebuild(RebuildReason),
}

/// How an action is shown.
pub open spec fn action_text(a: ExplainAction) -> Seq<char> {
    match a {
        ExplainAction::Skip => "SKIP (inputs unchanged)"@,
        ExplainAction::Restore(r) => "RESTORE ("@ + reason_text(r) + ")"@,
        ExplainAction::Rebuild(r) => "BUILD ("@ + reason_text(r) + ")"@,
    }
}

impl ExplainAction {
    /// The action as it is shown.
    pub fn to_string(&self) -> (r: String)
        ensures
            r@ == action_text(*self),
    {
        match self {
            ExplainAction::Skip => String::from_str("SKIP (inputs unchanged)"),
            ExplainAction::Restore(reason) => {
                let mut s: String = String::from_str("RESTORE (");
                s.append(reason.to_string().as_str());
                s.append(")");
                s
            },
            ExplainAction::Rebuild(reason) => {
                let mut s: String = String::from_str("BUILD (");
                s.append(reason.to_string().as_str());
                s.append(")");
                s
            },
        }
    }
}

/// Per-processor cache statistics.
#[derive(Debug, Clone, Copy)]
pub struct ProcessorCacheStats {
    pub entry_count: usize,
    pub output_count: usize,
    pub output_bytes: u64,
}

impl Default for ProcessorCacheStats {
    fn default() -> (r: Self)
        ensures
            r.entry_count == 0 && r.output_count == 0 && r.output_bytes == 0,
    {
        ProcessorCacheStats { entry_count: 0, output_count: 0, output_bytes: 0 }
    }
}

/// One output of a listed cache entry, and whether its object is stored.
#[derive(Debug, Clone)]
pub struct CacheListOutput {
    pub path: String,
    pub exists: bool,
}

/// A cache entry as it is listed.
#[derive(Debug, Clone)]
pub struct CacheListEntry {
    pub cache_key: String,
    pub input_checksum: String,
    pub outputs: Vec<CacheListOutput>,
}

/// How an object store is set up. The remote cache is named by its URL.
#[derive(Debug, Clone)]
pub struct ObjectStoreOptions {
    pub restore_method: RestoreMethod,
    pub remote: Option<String>,
    pub remote_push: bool,
    pub remote_pull: bool,
    pub mtime_check: bool,
}

/// One cached output: its path and the checksum its object is stored
/// under.
#[derive(Debug, Clone)]
pub struct OutputEntry {
    pub path: String,
    pub checksum: String,
}

/// A product's cache entry: the combined checksum of its inputs when it was
/// cached, and its outputs.
#[derive(Debug, Clone)]
pub struct CacheEntry {
    pub input_checksum: String,
    pub outputs: Vec<OutputEntry>,
}

/// The first cached output recorded for `path`.
pub open spec fn cached_output_index(outs: Seq<OutputEntry>, path: Seq<char>, k: int) -> Option<nat>
    decreases outs.len() - k,
{
    if k < 0 || k >= outs.len() {
        None
    } else if outs[k].path@ == path {
        Some(k as nat)
    } else {
        cached_output_index(outs, path, k + 1)
    }
}

/// The cache holds the object of output `path`: the entry records it and
/// its object is stored (`stored[i]` for the entry's `i`-th output).
pub open spec fn object_for(e: CacheEntry, stored: Seq<bool>, path: Seq<char>) -> bool {
    match cached_output_index(e.outputs@, path, 0) {
        Some(i) => i < stored.len() && stored[i as int],
        None => false,
    }
}

/// The first output, in order, that is missing on disk.
pub open spec fn first_missing(exists: Seq<bool>, k: int) -> Option<nat>
    decreases exists.len() - k,
{
    if k < 0 || k >= exists.len() {
        None
    } else if !exists[k] {
        Some(k as nat)
    } else {
        first_missing(exists, k + 1)
    }
}

/// Whether a product needs rebuilding: no entry, changed inputs, or a
/// missing output (even one the cache could restore).
pub open spec fn needs_rebuild_spec(entry: Option<CacheEntry>, input_checksum: Seq<char>, exists: Seq<bool>) -> bool {
    match entry {
        None => true,
        Some(e) => e.input_checksum@ != input_checksum || first_missing(exists, 0) is Some,
    }
}

/// Whether the outputs can be restored: an entry with the same inputs, and
/// every missing output's object stored.
pub open spec fn can_restore_spec(
    entry: Option<CacheEntry>,
    input_checksum: Seq<char>,
    outputs: Seq<Seq<char>>,
    exists: Seq<bool>,
    stored: Seq<bool>,
) -> bool {
    match entry {
        None => false,
        Some(e) => e.input_checksum@ == input_checksum && forall|i: int|
            0 <= i < outputs.len() && !exists[i] ==> object_for(e, stored, #[trigger] outputs[i]),
    }
}

/// The explanation of what will be done: forced, no entry, changed inputs,
/// then the first output missing on disk (restored when its object is
/// stored, rebuilt otherwise), else skipped.
pub open spec fn explains(
    r: ExplainAction,
    force: bool,
    entry: Option<CacheEntry>,
    input_checksum: Seq<char>,
    outputs: Seq<Seq<char>>,
    exists: Seq<bool>,
    stored: Seq<bool>,
) -> bool {
    if force {
        r == ExplainAction::Rebuild(RebuildReason::Force)
    } else {
        match entry {
            None => r == ExplainAction::Rebuild(RebuildReason::NoCacheEntry),
            Some(e) => if e.input_checksum@ != input_checksum {
                r == ExplainAction::Rebuild(RebuildReason::InputsChanged)
            } else {
                match first_missing(exists, 0) {
                    None => r == ExplainAction::Skip,
                    Some(i) => if object_for(e, stored, outputs[i as int]) {
                        r matches ExplainAction::Restore(RebuildReason::OutputMissing(p)) && p@ == outputs[i as int]
                    } else {
                        r matches ExplainAction::Rebuild(RebuildReason::OutputMissing(p)) && p@ == outputs[i as int]
                    },
                }
            },
        }
    }
}

/// Where the first missing output is found, the outputs before it are all
/// on disk.
proof fn lemma_first_missing(exists: Seq<bool>, k: int)
    requires
        0 <= k <= exists.len(),
    ensures
        first_missing(exists, k) matches Some(i) ==> k <= i < exists.len() && !exists[i as int]
            && forall|j: int| k <= j < i ==> exists[j],
        first_missing(exists, k) is None ==> forall|j: int| k <= j < exists.len() ==> exists[j],
    decreases exists.len() - k,
{
    if k < exists.len() {
        lemma_first_missing(exists, k + 1);
    }
}

/// The first cached output recorded for `path`.
fn find_cached(outs: &Vec<OutputEntry>, path: &str) -> (r: Option<usize>)
    ensures
        r matches Some(i) ==> cached_output_index(outs@, path@, 0) == Some(i as nat) && i < outs@.len(),
        r is None ==> cached_output_index(outs@, path@, 0) is None,
{
    let mut i: usize = 0;
    while i < outs.len()
        invariant
            0 <= i <= outs.len(),
            cached_output_index(outs@, path@, 0) == cached_output_index(outs@, path@, i as int),
        decreases outs.len() - i,
    {
        if str_eq(outs[i].path.as_str(), path) {
            return Some(i);
        }
        i = i + 1;
    }
    None
}

/// Whether a product needs rebuilding, given its cache entry, its current
/// input checksum, and which of its outputs exist on disk.
pub fn needs_rebuild(entry: Option<&CacheEntry>, input_checksum: &str, exists: &Vec<bool>) -> (r: bool)
    ensures
        r == needs_rebuild_spec(
            match entry {
                Some(e) => Some(*e),
                None => None,
            },
            input_checksum@,
            exists@,
        ),
{
    let e: &CacheEntry = match entry {
        Some(e) => e,
        None => {
            return true;
        },
    };
    if !str_eq(e.input_checksum.as_str(), input_checksum) {
        return true;
    }
    let mut i: usize = 0;
    while i < exists.len()
        invariant
            0 <= i <= exists.len(),
            first_missing(exists@, 0) == first_missing(exists@, i as int),
        decreases exists.len() - i,
    {
        if !exists[i] {
            return true;
        }
        i = i + 1;
    }
    false
}

/// Whether the outputs can be restored from the cache, given the entry,
/// the current input checksum, which outputs exist on disk, and which of
/// the entry's objects are stored.
pub fn can_restore(
    entry: Option<&CacheEntry>,
    input_checksum: &str,
    outputs: &Vec<String>,
    exists: &Vec<bool>,
    stored: &Vec<bool>,
) -> (r: bool)
    requires
        exists@.len() == outputs@.len(),
    ensures
        r == can_restore_spec(
            match entry {
                Some(e) => Some(*e),
                None => None,
            },
            input_checksum@,
            strs(outputs@),
            exists@,
            stored@,
        ),
{
    let e: &CacheEntry = match entry {
        Some(e) => e,
        None => {
            return false;
        },
    };
    if !str_eq(e.input_checksum.as_str(), input_checksum) {
        return false;
    }
    let ghost ents: Seq<Seq<char>> = strs(outputs@);
    let mut i: usize = 0;
    while i < outputs.len()
        invariant
            0 <= i <= outputs.len(),
            exists@.len() == outputs@.len(),
            ents == strs(outputs@),
            entry == Some(e),
            e.input_checksum@ == input_checksum@,
            forall|j: int| 0 <= j < i && !exists@[j] ==> object_for(*e, stored@, #[trigger] ents[j]),
        decreases outputs.len() - i,
    {
        if !exists[i] {
            proof {
                assert(ents[i as int] == outputs@[i as int]@);
            }
            match find_cached(&e.outputs, outputs[i].as_str()) {
                Some(k) => {
                    if k >= stored.len() || !stored[k] {
                        assert(!object_for(*e, stored@, ents[i as int]));
                        assert(!can_restore_spec(Some(*e), input_checksum@, ents, exists@, stored@));
                        return false;
                    }
                },
                None => {
                    assert(!object_for(*e, stored@, ents[i as int]));
                    assert(!can_restore_spec(Some(*e), input_checksum@, ents, exists@, stored@));
                    return false;
                },
            }
        }
        i = i + 1;
    }
    true
}

/// What will be done with a product and why, given the same facts as
/// `can_restore` and whether the build is forced.
pub fn explain_action(
    force: bool,
    entry: Option<&CacheEntry>,
    input_checksum: &str,
    outputs: &Vec<String>,
    exists: &Vec<bool>,
    stored: &Vec<bool>,
) -> (r: ExplainAction)
    requires
        exists@.len() == outputs@.len(),
    ensures
        explains(
            r,
            force,
            match entry {
                Some(e) => Some(*e),
                None => None,
            },
            input_checksum@,
            strs(outputs@),
            exists@,
            stored@,
        ),
{
    if force {
        return ExplainAction::Rebuild(RebuildReason::Force);
    }
    let e: &CacheEntry = match entry {
        Some(e) => e,
        None => {
            return ExplainAction::Rebuild(RebuildReason::NoCacheEntry);
        },
    };
    if !str_eq(e.input_checksum.as_str(), input_checksum) {
        return ExplainAction::Rebuild(RebuildReason::InputsChanged);
    }
    let ghost ents: Seq<Seq<char>> = strs(outputs@);
    let mut i: usize = 0;
    while i < outputs.len()
        invariant
            0 <= i <= outputs.len(),
            exists@.len() == outputs@.len(),
            ents == strs(outputs@),
            !force,
            entry == Some(e),
            e.input_checksum@ == input_checksum@,
            first_missing(exists@, 0) == first_missing(exists@, i as int),
        decreases outputs.len() - i,
    {
        if !exists[i] {
            proof {
                assert(ents[i as int] == outputs@[i as int]@);
            }
            let path: String = outputs[i].clone();
            let found: bool = match find_cached(&e.outputs, outputs[i].as_str()) {
                Some(k) => k < stored.len() && stored[k],
                None => false,
            };
            proof {
                lemma_first_missing(exists@, i as int);
                assert(first_missing(exists@, 0) == Some(i as nat));
                assert(found == object_for(*e, stored@, ents[i as int]));
            }
            if found {
                return ExplainAction::Restore(RebuildReason::OutputMissing(path));
            } else {
                return ExplainAction::Rebuild(RebuildReason::OutputMissing(path));
            }
        }
        i = i + 1;
    }
    ExplainAction::Skip
}

/// The explanation agrees with the two questions it stands for: a product
/// is explained as skipped exactly when the build is not forced and it does
/// not need rebuilding; it is explained as restored only when it needs
/// rebuilding; and when it needs rebuilding and every missing output can be
/// restored, it is explained as restored.
pub proof fn lemma_explain_agrees(
    r: ExplainAction,
    force: bool,
    entry: Option<CacheEntry>,
    input_checksum: Seq<char>,
    outputs: Seq<Seq<char>>,
    exists: Seq<bool>,
    stored: Seq<bool>,
)
    requires
        exists.len() == outputs.len(),
        explains(r, force, entry, input_checksum, outputs, exists, stored),
    ensures
        (r is Skip) <==> (!force && !needs_rebuild_spec(entry, input_checksum, exists)),
        r is Restore ==> !force && needs_rebuild_spec(entry, input_checksum, exists),
        !force && needs_rebuild_spec(entry, input_checksum, exists)
            && can_restore_spec(entry, input_checksum, outputs, exists, stored) ==> r is Restore,
{
    lemma_first_missing(exists, 0);
}

/// How a product's successful result is cached.
#[derive(Debug, Clone, Copy, PartialEq, Eq, Structural)]
pub enum CacheEntryKind {
    /// A checker (no outputs, no output directories): a pass marker.
    Marker,
    /// A generator of one output file, no output directories: that file.
    Blob,
    /// Any other product: a tree of its outputs and output directories.
    Tree,
}

/// The cache entry a product's success is stored as.
pub open spec fn cache_entry_kind_spec(n_outputs: nat, has_output_dirs: bool) -> CacheEntryKind {
    if n_outputs == 0 && !has_output_dirs {
        CacheEntryKind::Marker
    } else if n_outputs == 1 && !has_output_dirs {
        CacheEntryKind::Blob
    } else {
        CacheEntryKind::Tree
    }
}

/// How a product with `n_outputs` outputs (and output directories or not)
/// is cached after it succeeds: a marker for a checker, the file for a
/// generator of one file, a tree otherwise.
pub fn cache_entry_kind(n_outputs: usize, has_output_dirs: bool) -> (r: CacheEntryKind)
    ensures
        r == cache_entry_kind_spec(n_outputs as nat, has_output_dirs),
{
    if n_outputs == 0 && !has_output_dirs {
        CacheEntryKind::Marker
    } else if n_outputs == 1 && !has_output_dirs {
        CacheEntryKind::Blob
    } else {
        CacheEntryKind::Tree
    }
}

/// A product whose inputs are unchanged but one of whose outputs is
/// missing on disk needs rebuilding (or restoring), and is never
/// explained as skipped; conversely a product needs no rebuild only when
/// its entry exists, its inputs are unchanged and every output is on disk.
pub proof fn lemma_missing_output_needs_rebuild(
    entry: Option<CacheEntry>,
    input_checksum: Seq<char>,
    outputs: Seq<Seq<char>>,
    exists: Seq<bool>,
    stored: Seq<bool>,
    force: bool,
    r: ExplainAction,
)
    ensures
        (exists|i: int| 0 <= i < exists.len() && !exists[i]) ==> needs_rebuild_spec(entry, input_checksum, exists),
        !needs_rebuild_spec(entry, input_checksum, exists) <==> (entry matches Some(e) && e.input_checksum@
            == input_checksum && forall|i: int| 0 <= i < exists.len() ==> exists[i]),
        explains(r, force, entry, input_checksum, outputs, exists, stored) && (exists|i: int|
            0 <= i < exists.len() && !exists[i]) ==> r != ExplainAction::Skip,
        explains(r, force, entry, input_checksum, outputs, exists, stored) ==> (r == ExplainAction::Skip
            <==> !force && !needs_rebuild_spec(entry, input_checksum, exists)),
{
    lemma_first_missing(exists, 0);
}

} // verus!
