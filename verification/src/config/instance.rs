//! Processor instances: the `[processor.TYPE]` and `[processor.TYPE.NAME]`
//! sections of the project file, with the registry's defaults filled in and
//! the origin of every field recorded.

use vstd::prelude::*;
use crate::config::SectionShape;
use crate::config::provenance::{FieldProvenance, ProvenanceMap, record_if_absent};
use crate::config::registry::{ProcessorDefaults, ProcessorPlugin, ScanDefaultsData, known_fields_for, known_fields_spec, processor_defaults_for, registered, scan_defaults_for};
use crate::config::toml_value::{TomlValue, entry_keys_of, table_contains, table_get, table_insert, table_set, table_sorted, table_view};
use crate::text::{is_prefix, str_eq, str_starts_with, str_views, strs, strs_contain};
use crate::lexical::{sorted_insert, strictly_sorted};

verus! {

/// `v` is the string `s`.
pub open spec fn is_text(v: TomlValue, s: Seq<char>) -> bool {
    v matches TomlValue::String(x) && x@ == s
}

/// `v` is the array of the strings `ss`.
pub open spec fn is_text_list(v: TomlValue, ss: Seq<Seq<char>>) -> bool {
    v matches TomlValue::Array(items) && items@.len() == ss.len() && forall|i: int|
        0 <= i < ss.len() ==> #[trigger] is_text(items@[i], ss[i])
}

/// Every entry of `before` is in `after`, unchanged.
pub open spec fn keeps_entries(before: Map<Seq<char>, TomlValue>, after: Map<Seq<char>, TomlValue>) -> bool {
    forall|k: Seq<char>| #[trigger] before.contains_key(k) ==> after.contains_key(k) && after[k] == before[k]
}

/// `after` holds no key that is neither in `before` nor in `allowed`.
pub open spec fn adds_only(before: Map<Seq<char>, TomlValue>, after: Map<Seq<char>, TomlValue>, allowed: Set<Seq<char>>) -> bool {
    forall|k: Seq<char>| #[trigger] after.contains_key(k) && !before.contains_key(k) ==> allowed.contains(k)
}

/// A text default: an absent `key` gets the string `val`, unless `val` is
/// empty.
pub open spec fn text_default(before: Map<Seq<char>, TomlValue>, after: Map<Seq<char>, TomlValue>, key: Seq<char>, val: Seq<char>) -> bool {
    !before.contains_key(key) ==> if val.len() > 0 {
        after.contains_key(key) && is_text(after[key], val)
    } else {
        !after.contains_key(key)
    }
}

/// A list default: an absent `key` gets the array of `vals`, unless `vals`
/// is empty and `even_empty` is not set.
pub open spec fn list_default(
    before: Map<Seq<char>, TomlValue>,
    after: Map<Seq<char>, TomlValue>,
    key: Seq<char>,
    vals: Seq<Seq<char>>,
    even_empty: bool,
) -> bool {
    !before.contains_key(key) ==> if vals.len() > 0 || even_empty {
        after.contains_key(key) && is_text_list(after[key], vals)
    } else {
        !after.contains_key(key)
    }
}

/// The origins after defaults were added to a table: each key the table
/// gained is recorded as coming from `source`, unless it already had an
/// origin; nothing else changes.
pub open spec fn provenance_extended(
    bp: Map<Seq<char>, FieldProvenance>,
    ap: Map<Seq<char>, FieldProvenance>,
    bt: Map<Seq<char>, TomlValue>,
    at: Map<Seq<char>, TomlValue>,
    source: FieldProvenance,
) -> bool {
    &&& forall|k: Seq<char>| #[trigger] ap.contains_key(k) <==> bp.contains_key(k) || (at.contains_key(k) && !bt.contains_key(k))
    &&& forall|k: Seq<char>| #[trigger] bp.contains_key(k) ==> ap[k] == bp[k]
    &&& forall|k: Seq<char>| !bp.contains_key(k) && at.contains_key(k) && !bt.contains_key(k) ==> #[trigger] ap[k] == source
}

/// The keys the processor defaults may add.
pub open spec fn processor_default_keys() -> Set<Seq<char>> {
    set!["command"@, "output_dir"@, "dep_auto"@, "formats"@, "args"@, "batch"@]
}

/// The keys the scan defaults may add.
pub open spec fn scan_default_keys() -> Set<Seq<char>> {
    set!["src_dirs"@, "src_extensions"@, "src_exclude_dirs"@, "src_exclude_files"@, "src_exclude_paths"@, "src_files"@]
}

/// A table after the processor defaults `d`: the command and output
/// directory when given, the `dep_auto`, `formats` and `args` lists when
/// not empty, and `batch` when given; only where the key is absent.
pub open spec fn processor_defaults_applied(before: Map<Seq<char>, TomlValue>, after: Map<Seq<char>, TomlValue>, d: ProcessorDefaults) -> bool {
    &&& keeps_entries(before, after)
    &&& text_default(before, after, "command"@, d.command@)
    &&& text_default(before, after, "output_dir"@, d.output_dir@)
    &&& list_default(before, after, "dep_auto"@, str_views(d.dep_auto@), false)
    &&& list_default(before, after, "formats"@, str_views(d.formats@), false)
    &&& list_default(before, after, "args"@, str_views(d.args@), false)
    &&& !before.contains_key("batch"@) ==> match d.batch {
        Some(b) => after.contains_key("batch"@) && after["batch"@] == TomlValue::Boolean(b),
        None => !after.contains_key("batch"@),
    }
}

/// A table after the scan defaults `d`: the directories, extensions and
/// excluded directories of `d` (even when empty), and empty lists of
/// excluded files, excluded paths and extra files; only where the key is
/// absent.
pub open spec fn scan_defaults_applied(before: Map<Seq<char>, TomlValue>, after: Map<Seq<char>, TomlValue>, d: ScanDefaultsData) -> bool {
    &&& keeps_entries(before, after)
    &&& list_default(before, after, "src_dirs"@, str_views(d.src_dirs@), true)
    &&& list_default(before, after, "src_extensions"@, str_views(d.src_extensions@), true)
    &&& list_default(before, after, "src_exclude_dirs"@, str_views(d.src_exclude_dirs@), true)
    &&& list_default(before, after, "src_exclude_files"@, Seq::empty(), true)
    &&& list_default(before, after, "src_exclude_paths"@, Seq::empty(), true)
    &&& list_default(before, after, "src_files"@, Seq::empty(), true)
}

/// What one step of filling in a default keeps: the table stays sorted,
/// its entries stay, only `key` may be added, and the origins follow.
pub open spec fn default_step(
    e0: Seq<(String, TomlValue)>,
    e1: Seq<(String, TomlValue)>,
    p0: Map<Seq<char>, FieldProvenance>,
    p1: Map<Seq<char>, FieldProvenance>,
    key: Seq<char>,
    source: FieldProvenance,
) -> bool {
    &&& table_sorted(e1)
    &&& keeps_entries(table_view(e0), table_view(e1))
    &&& adds_only(table_view(e0), table_view(e1), set![key])
    &&& provenance_extended(p0, p1, table_view(e0), table_view(e1), source)
}

/// Adds `key` with `value` to the table, and records its origin unless it
/// has one.
fn insert_default(
    entries: &mut Vec<(String, TomlValue)>,
    key: &str,
    value: TomlValue,
    provenance: &mut ProvenanceMap,
    source: FieldProvenance,
)
    requires
        table_sorted(old(entries)@),
        !table_view(old(entries)@).contains_key(key@),
        old(provenance).wf(),
    ensures
        final(provenance).wf(),
        default_step(old(entries)@, final(entries)@, old(provenance)@, final(provenance)@, key@, source),
        table_view(final(entries)@) == table_view(old(entries)@).insert(key@, value),
{
    let ghost t0 = table_view(entries@);
    table_insert(entries, String::from_str(key), value);
    record_if_absent(provenance, key, source);
}

/// The array of the strings `vals`.
fn text_list(vals: &[&str]) -> (r: TomlValue)
    ensures
        is_text_list(r, str_views(vals@)),
{
    let mut items: Vec<TomlValue> = Vec::new();
    let mut i: usize = 0;
    while i < vals.len()
        invariant
            0 <= i <= vals.len(),
            items@.len() == i,
            forall|j: int| 0 <= j < i ==> #[trigger] is_text(items@[j], vals@[j]@),
        decreases vals.len() - i,
    {
        items.push(TomlValue::String(String::from_str(vals[i])));
        i = i + 1;
    }
    let r = TomlValue::Array(items);
    proof {
        assert forall|j: int| 0 <= j < str_views(vals@).len() implies #[trigger] is_text(items@[j], str_views(vals@)[j]) by {
            assert(str_views(vals@)[j] == vals@[j]@);
        }
    }
    r
}

/// Sets `key` to the string `val` when it is absent and `val` is not
/// empty.
fn set_string_default(
    entries: &mut Vec<(String, TomlValue)>,
    key: &str,
    val: &str,
    provenance: &mut ProvenanceMap,
    source: FieldProvenance,
)
    requires
        table_sorted(old(entries)@),
        old(provenance).wf(),
    ensures
        final(provenance).wf(),
        default_step(old(entries)@, final(entries)@, old(provenance)@, final(provenance)@, key@, source),
        text_default(table_view(old(entries)@), table_view(final(entries)@), key@, val@),
        table_view(old(entries)@).contains_key(key@) ==> table_view(final(entries)@) == table_view(old(entries)@),
{
    if !val.is_empty() && !table_contains(entries, key) {
        insert_default(entries, key, TomlValue::String(String::from_str(val)), provenance, source);
    } else {
        proof {
            assert(val@.len() == 0 || table_view(entries@).contains_key(key@));
        }
    }
}

/// Sets `key` to the array of `vals` when it is absent, and `vals` is not
/// empty or `even_empty` is set.
fn set_list_default(
    entries: &mut Vec<(String, TomlValue)>,
    key: &str,
    vals: &[&str],
    even_empty: bool,
    provenance: &mut ProvenanceMap,
    source: FieldProvenance,
)
    requires
        table_sorted(old(entries)@),
        old(provenance).wf(),
    ensures
        final(provenance).wf(),
        default_step(old(entries)@, final(entries)@, old(provenance)@, final(provenance)@, key@, source),
        list_default(table_view(old(entries)@), table_view(final(entries)@), key@, str_views(vals@), even_empty),
        table_view(old(entries)@).contains_key(key@) ==> table_view(final(entries)@) == table_view(old(entries)@),
{
    if (vals.len() > 0 || even_empty) && !table_contains(entries, key) {
        insert_default(entries, key, text_list(vals), provenance, source);
    }
}

/// Sets `key` to the boolean `val` when it is absent.
fn set_bool_default(
    entries: &mut Vec<(String, TomlValue)>,
    key: &str,
    val: bool,
    provenance: &mut ProvenanceMap,
    source: FieldProvenance,
)
    requires
        table_sorted(old(entries)@),
        old(provenance).wf(),
    ensures
        final(provenance).wf(),
        default_step(old(entries)@, final(entries)@, old(provenance)@, final(provenance)@, key@, source),
        !table_view(old(entries)@).contains_key(key@) ==> table_view(final(entries)@).contains_key(key@)
            && table_view(final(entries)@)[key@] == TomlValue::Boolean(val),
        table_view(old(entries)@).contains_key(key@) ==> table_view(final(entries)@) == table_view(old(entries)@),
{
    if !table_contains(entries, key) {
        insert_default(entries, key, TomlValue::Boolean(val), provenance, source);
    }
}

/// Two default steps in a row make one: entries kept, keys added from the
/// two sets, and origins recorded for what was added.
proof fn lemma_steps_compose(
    t0: Map<Seq<char>, TomlValue>,
    t1: Map<Seq<char>, TomlValue>,
    t2: Map<Seq<char>, TomlValue>,
    p0: Map<Seq<char>, FieldProvenance>,
    p1: Map<Seq<char>, FieldProvenance>,
    p2: Map<Seq<char>, FieldProvenance>,
    a: Set<Seq<char>>,
    b: Set<Seq<char>>,
    source: FieldProvenance,
)
    requires
        keeps_entries(t0, t1),
        keeps_entries(t1, t2),
        adds_only(t0, t1, a),
        adds_only(t1, t2, b),
        provenance_extended(p0, p1, t0, t1, source),
        provenance_extended(p1, p2, t1, t2, source),
    ensures
        keeps_entries(t0, t2),
        adds_only(t0, t2, a + b),
        provenance_extended(p0, p2, t0, t2, source),
{
    assert forall|k: Seq<char>| #[trigger] t2.contains_key(k) && !t0.contains_key(k) implies (a + b).contains(k) by {
        if t1.contains_key(k) {
            assert(a.contains(k));
        } else {
            assert(b.contains(k));
        }
    }
    assert forall|k: Seq<char>| #[trigger] p2.contains_key(k) <==> p0.contains_key(k) || (t2.contains_key(k) && !t0.contains_key(k)) by {
        if p1.contains_key(k) {
            assert(p0.contains_key(k) || (t1.contains_key(k) && !t0.contains_key(k)));
        }
        if t1.contains_key(k) {
            assert(t2.contains_key(k));
        }
    }
    assert forall|k: Seq<char>| !p0.contains_key(k) && t2.contains_key(k) && !t0.contains_key(k) implies #[trigger] p2[k] == source by {
        if t1.contains_key(k) {
            assert(p1.contains_key(k));
            assert(p1[k] == source);
        } else {
            if p1.contains_key(k) {
                assert(t1.contains_key(k) && !t0.contains_key(k));
            }
        }
    }
}

/// Fills in the processor defaults `d` of a table.
fn apply_defaults_to_table(entries: &mut Vec<(String, TomlValue)>, d: &ProcessorDefaults, provenance: &mut ProvenanceMap)
    requires
        table_sorted(old(entries)@),
        old(provenance).wf(),
    ensures
        table_sorted(final(entries)@),
        final(provenance).wf(),
        processor_defaults_applied(table_view(old(entries)@), table_view(final(entries)@), *d),
        adds_only(table_view(old(entries)@), table_view(final(entries)@), processor_default_keys()),
        provenance_extended(old(provenance)@, final(provenance)@, table_view(old(entries)@), table_view(final(entries)@), FieldProvenance::ProcessorDefault),
{
    proof {
        reveal_strlit("command");
        reveal_strlit("output_dir");
        reveal_strlit("dep_auto");
        reveal_strlit("formats");
        reveal_strlit("args");
        reveal_strlit("batch");
    }
    let src = FieldProvenance::ProcessorDefault;
    let ghost t0 = table_view(entries@);
    let ghost p0 = provenance@;
    set_string_default(entries, "command", d.command, provenance, src);
    let ghost t1 = table_view(entries@);
    let ghost p1 = provenance@;
    set_string_default(entries, "output_dir", d.output_dir, provenance, src);
    let ghost t2 = table_view(entries@);
    let ghost p2 = provenance@;
    proof {
        lemma_steps_compose(t0, t1, t2, p0, p1, p2, set!["command"@], set!["output_dir"@], src);
    }
    set_list_default(entries, "dep_auto", d.dep_auto, false, provenance, src);
    let ghost t3 = table_view(entries@);
    let ghost p3 = provenance@;
    proof {
        lemma_steps_compose(t0, t2, t3, p0, p2, p3, set!["command"@] + set!["output_dir"@], set!["dep_auto"@], src);
    }
    set_list_default(entries, "formats", d.formats, false, provenance, src);
    let ghost t4 = table_view(entries@);
    let ghost p4 = provenance@;
    proof {
        lemma_steps_compose(t0, t3, t4, p0, p3, p4, set!["command"@] + set!["output_dir"@] + set!["dep_auto"@], set!["formats"@], src);
    }
    set_list_default(entries, "args", d.args, false, provenance, src);
    let ghost t5 = table_view(entries@);
    let ghost p5 = provenance@;
    proof {
        lemma_steps_compose(t0, t4, t5, p0, p4, p5, set!["command"@] + set!["output_dir"@] + set!["dep_auto"@] + set!["formats"@], set!["args"@], src);
    }
    match d.batch {
        Some(b) => {
            set_bool_default(entries, "batch", b, provenance, src);
        },
        None => {},
    }
    let ghost t6 = table_view(entries@);
    let ghost p6 = provenance@;
    proof {
        lemma_steps_compose(t0, t5, t6, p0, p5, p6, set!["command"@] + set!["output_dir"@] + set!["dep_auto"@] + set!["formats"@] + set!["args"@], set!["batch"@], src);
        assert(set!["command"@] + set!["output_dir"@] + set!["dep_auto"@] + set!["formats"@] + set!["args"@] + set!["batch"@] =~= processor_default_keys());
    }
}

/// Fills in the scan defaults `d` of a table.
fn apply_scan_defaults_to_table(entries: &mut Vec<(String, TomlValue)>, d: &ScanDefaultsData, provenance: &mut ProvenanceMap)
    requires
        table_sorted(old(entries)@),
        old(provenance).wf(),
    ensures
        table_sorted(final(entries)@),
        final(provenance).wf(),
        scan_defaults_applied(table_view(old(entries)@), table_view(final(entries)@), *d),
        adds_only(table_view(old(entries)@), table_view(final(entries)@), scan_default_keys()),
        provenance_extended(old(provenance)@, final(provenance)@, table_view(old(entries)@), table_view(final(entries)@), FieldProvenance::ScanDefault),
{
    proof {
        reveal_strlit("src_dirs");
        reveal_strlit("src_extensions");
        reveal_strlit("src_exclude_dirs");
        reveal_strlit("src_exclude_files");
        reveal_strlit("src_exclude_paths");
        reveal_strlit("src_files");
    }
    let src = FieldProvenance::ScanDefault;
    let none: &[&str] = &[];
    proof {
        assert(str_views(none@) =~= Seq::<Seq<char>>::empty());
    }
    let ghost t0 = table_view(entries@);
    let ghost p0 = provenance@;
    set_list_default(entries, "src_dirs", d.src_dirs, true, provenance, src);
    let ghost t1 = table_view(entries@);
    let ghost p1 = provenance@;
    set_list_default(entries, "src_extensions", d.src_extensions, true, provenance, src);
    let ghost t2 = table_view(entries@);
    let ghost p2 = provenance@;
    proof {
        lemma_steps_compose(t0, t1, t2, p0, p1, p2, set!["src_dirs"@], set!["src_extensions"@], src);
    }
    set_list_default(entries, "src_exclude_dirs", d.src_exclude_dirs, true, provenance, src);
    let ghost t3 = table_view(entries@);
    let ghost p3 = provenance@;
    proof {
        lemma_steps_compose(t0, t2, t3, p0, p2, p3, set!["src_dirs"@] + set!["src_extensions"@], set!["src_exclude_dirs"@], src);
    }
    set_list_default(entries, "src_exclude_files", none, true, provenance, src);
    let ghost t4 = table_view(entries@);
    let ghost p4 = provenance@;
    proof {
        lemma_steps_compose(t0, t3, t4, p0, p3, p4, set!["src_dirs"@] + set!["src_extensions"@] + set!["src_exclude_dirs"@], set!["src_exclude_files"@], src);
    }
    set_list_default(entries, "src_exclude_paths", none, true, provenance, src);
    let ghost t5 = table_view(entries@);
    let ghost p5 = provenance@;
    proof {
        lemma_steps_compose(t0, t4, t5, p0, p4, p5, set!["src_dirs"@] + set!["src_extensions"@] + set!["src_exclude_dirs"@] + set!["src_exclude_files"@], set!["src_exclude_paths"@], src);
    }
    set_list_default(entries, "src_files", none, true, provenance, src);
    let ghost t6 = table_view(entries@);
    let ghost p6 = provenance@;
    proof {
        lemma_steps_compose(t0, t5, t6, p0, p5, p6, set!["src_dirs"@] + set!["src_extensions"@] + set!["src_exclude_dirs"@] + set!["src_exclude_files"@] + set!["src_exclude_paths"@], set!["src_files"@], src);
        assert(set!["src_dirs"@] + set!["src_extensions"@] + set!["src_exclude_dirs"@] + set!["src_exclude_files"@] + set!["src_exclude_paths"@] + set!["src_files"@] =~= scan_default_keys());
    }
}

/// The processor defaults the registry gives a type.
pub open spec fn defaults_of(plugins: Seq<ProcessorPlugin>, proc_type: Seq<char>) -> Option<ProcessorDefaults> {
    match registered(plugins, proc_type) {
        Some(p) => p.defaults,
        None => None,
    }
}

/// The scan defaults the registry gives a type.
pub open spec fn scan_defaults_of(plugins: Seq<ProcessorPlugin>, proc_type: Seq<char>) -> Option<ScanDefaultsData> {
    match registered(plugins, proc_type) {
        Some(p) => p.scan_defaults,
        None => None,
    }
}

/// A value that is a table has its keys in order.
pub open spec fn value_sorted(v: TomlValue) -> bool {
    v matches TomlValue::Table(e) ==> table_sorted(e@)
}

/// Fills in the processor defaults of a builtin type: the command, output
/// directory, `dep_auto`, formats, arguments and batching its registry
/// entry gives, each only where the section does not set it, recording
/// each added field as a processor default unless it already has an
/// origin. A type without defaults, or a value that is not a table, is
/// left alone.
pub fn apply_processor_defaults(plugins: &[ProcessorPlugin], proc_type: &str, value: &mut TomlValue, provenance: &mut ProvenanceMap)
    requires
        value_sorted(*old(value)),
        old(provenance).wf(),
    ensures
        value_sorted(*final(value)),
        final(provenance).wf(),
        *old(value) matches TomlValue::Table(e0) ==> defaults_of(plugins@, proc_type@) is Some ==> (*final(value) matches TomlValue::Table(e1)
            && processor_defaults_applied(table_view(e0@), table_view(e1@), defaults_of(plugins@, proc_type@)->0)
            && adds_only(table_view(e0@), table_view(e1@), processor_default_keys())
            && provenance_extended(old(provenance)@, final(provenance)@, table_view(e0@), table_view(e1@), FieldProvenance::ProcessorDefault)),
        !(*old(value) is Table && defaults_of(plugins@, proc_type@) is Some) ==> *final(value) == *old(value) && final(provenance)@ == old(provenance)@,
{
    let d: ProcessorDefaults = match processor_defaults_for(plugins, proc_type) {
        Some(d) => d,
        None => {
            return;
        },
    };
    match value {
        TomlValue::Table(entries) => {
            apply_defaults_to_table(entries, &d, provenance);
        },
        _ => {},
    }
}

/// Fills in the scan defaults of a builtin type: its directories,
/// extensions and excluded directories, and empty lists of excluded files,
/// excluded paths and extra files, each only where the section does not
/// set it, recording each added field as a scan default unless it already
/// has an origin. A type without scan defaults, or a value that is not a
/// table, is left alone.
pub fn apply_scan_defaults(plugins: &[ProcessorPlugin], proc_type: &str, value: &mut TomlValue, provenance: &mut ProvenanceMap)
    requires
        value_sorted(*old(value)),
        old(provenance).wf(),
    ensures
        value_sorted(*final(value)),
        final(provenance).wf(),
        *old(value) matches TomlValue::Table(e0) ==> scan_defaults_of(plugins@, proc_type@) is Some ==> (*final(value) matches TomlValue::Table(e1)
            && scan_defaults_applied(table_view(e0@), table_view(e1@), scan_defaults_of(plugins@, proc_type@)->0)
            && adds_only(table_view(e0@), table_view(e1@), scan_default_keys())
            && provenance_extended(old(provenance)@, final(provenance)@, table_view(e0@), table_view(e1@), FieldProvenance::ScanDefault)),
        !(*old(value) is Table && scan_defaults_of(plugins@, proc_type@) is Some) ==> *final(value) == *old(value) && final(provenance)@ == old(provenance)@,
{
    let d: ScanDefaultsData = match scan_defaults_for(plugins, proc_type) {
        Some(d) => d,
        None => {
            return;
        },
    };
    match value {
        TomlValue::Table(entries) => {
            apply_scan_defaults_to_table(entries, &d, provenance);
        },
        _ => {},
    }
}

/// The origins of a section's fields as the project file gives them: each
/// key of a table is marked as set there, its line not known yet.
pub open spec fn seeded(v: TomlValue) -> Map<Seq<char>, FieldProvenance> {
    match v {
        TomlValue::Table(e) => Map::new(
            |k: Seq<char>| entry_keys_of(e@).contains(k),
            |k: Seq<char>| FieldProvenance::UserToml { line: 0 },
        ),
        _ => Map::empty(),
    }
}

/// Marks every key of a table as set in the project file (line not known
/// yet), so that defaults applied afterwards do not claim it.
pub fn seed_user_provenance(value: &TomlValue) -> (r: ProvenanceMap)
    ensures
        r.wf(),
        r@ == seeded(*value),
{
    let mut map = ProvenanceMap::new();
    match value {
        TomlValue::Table(entries) => {
            let mut i: usize = 0;
            while i < entries.len()
                invariant
                    0 <= i <= entries.len(),
                    map.wf(),
                    map@ == Map::new(
                        |k: Seq<char>| entry_keys_of(entries@.take(i as int)).contains(k),
                        |k: Seq<char>| FieldProvenance::UserToml { line: 0 },
                    ),
                decreases entries.len() - i,
            {
                let ghost before = map@;
                map.insert(entries[i].0.as_str(), FieldProvenance::UserToml { line: 0 });
                proof {
                    let ks0 = entry_keys_of(entries@.take(i as int));
                    let ks1 = entry_keys_of(entries@.take(i + 1));
                    assert(ks1 =~= ks0.push(entries@[i as int].0@));
                    assert forall|k: Seq<char>| #[trigger] ks1.contains(k) <==> ks0.contains(k) || k == entries@[i as int].0@ by {
                        vstd::seq_lib::lemma_seq_contains_after_push(ks0, entries@[i as int].0@, k);
                    }
                    assert(map@ =~= Map::new(
                        |k: Seq<char>| ks1.contains(k),
                        |k: Seq<char>| FieldProvenance::UserToml { line: 0 },
                    ));
                }
                i = i + 1;
            }
            proof {
                assert(entries@.take(entries@.len() as int) =~= entries@);
            }
        },
        _ => {
            proof {
                assert(map@ =~= seeded(*value));
            }
        },
    }
    map
}

/// No key is both a scan default and a processor default.
proof fn lemma_default_keys_disjoint()
    ensures
        forall|k: Seq<char>| #[trigger] scan_default_keys().contains(k) ==> !processor_default_keys().contains(k),
{
    reveal_strlit("command");
    reveal_strlit("output_dir");
    reveal_strlit("dep_auto");
    reveal_strlit("formats");
    reveal_strlit("args");
    reveal_strlit("batch");
    reveal_strlit("src_dirs");
    reveal_strlit("src_extensions");
    reveal_strlit("src_exclude_dirs");
    reveal_strlit("src_exclude_files");
    reveal_strlit("src_exclude_paths");
    reveal_strlit("src_files");
    let p = seq!["command"@, "output_dir"@, "dep_auto"@, "formats"@, "args"@, "batch"@];
    let q = seq!["src_dirs"@, "src_extensions"@, "src_exclude_dirs"@, "src_exclude_files"@, "src_exclude_paths"@, "src_files"@];
    assert forall|i: int, j: int| 0 <= i < 6 && 0 <= j < 6 implies #[trigger] q[i] != #[trigger] p[j] by {
        assert(q[i][0] == 's');
        assert(p[j][0] != 's');
    }
    assert forall|k: Seq<char>| #[trigger] scan_default_keys().contains(k) implies !processor_default_keys().contains(k) by {
        let i: int = if k == q[0] { 0 } else if k == q[1] { 1 } else if k == q[2] { 2 } else if k == q[3] { 3 } else if k == q[4] { 4 } else { 5 };
        assert(k == q[i]);
        if processor_default_keys().contains(k) {
            let j: int = if k == p[0] { 0 } else if k == p[1] { 1 } else if k == p[2] { 2 } else if k == p[3] { 3 } else if k == p[4] { 4 } else { 5 };
            assert(k == p[j]);
        }
    }
}

/// The origin a default gives the field it fills in.
pub open spec fn default_origin(k: Seq<char>) -> FieldProvenance {
    if scan_default_keys().contains(k) {
        FieldProvenance::ScanDefault
    } else {
        FieldProvenance::ProcessorDefault
    }
}

/// The keys a type's defaults may add.
pub open spec fn default_keys_of(plugins: Seq<ProcessorPlugin>, proc_type: Seq<char>) -> Set<Seq<char>> {
    (if scan_defaults_of(plugins, proc_type) is Some {
        scan_default_keys()
    } else {
        Set::empty()
    }) + (if defaults_of(plugins, proc_type) is Some {
        processor_default_keys()
    } else {
        Set::empty()
    })
}

/// A table after all the defaults of its type: its entries kept, the scan
/// defaults and the processor defaults filled in, and nothing else added.
pub open spec fn defaults_resolved(
    plugins: Seq<ProcessorPlugin>,
    proc_type: Seq<char>,
    before: Map<Seq<char>, TomlValue>,
    after: Map<Seq<char>, TomlValue>,
) -> bool {
    &&& keeps_entries(before, after)
    &&& adds_only(before, after, default_keys_of(plugins, proc_type))
    &&& scan_defaults_of(plugins, proc_type) matches Some(d) ==> scan_defaults_applied(before, after, d)
    &&& defaults_of(plugins, proc_type) matches Some(d) ==> processor_defaults_applied(before, after, d)
}

/// The origins after the defaults: each added field is recorded as a scan
/// or processor default unless it already had an origin; nothing else
/// changes.
pub open spec fn origins_recorded(
    bp: Map<Seq<char>, FieldProvenance>,
    ap: Map<Seq<char>, FieldProvenance>,
    bt: Map<Seq<char>, TomlValue>,
    at: Map<Seq<char>, TomlValue>,
) -> bool {
    &&& forall|k: Seq<char>| #[trigger] ap.contains_key(k) <==> bp.contains_key(k) || (at.contains_key(k) && !bt.contains_key(k))
    &&& forall|k: Seq<char>| #[trigger] bp.contains_key(k) ==> ap[k] == bp[k]
    &&& forall|k: Seq<char>| !bp.contains_key(k) && at.contains_key(k) && !bt.contains_key(k) ==> #[trigger] ap[k] == default_origin(k)
}

/// The scan step followed by the processor step resolves all defaults.
proof fn lemma_defaults_compose(
    plugins: Seq<ProcessorPlugin>,
    proc_type: Seq<char>,
    t0: Map<Seq<char>, TomlValue>,
    t1: Map<Seq<char>, TomlValue>,
    t2: Map<Seq<char>, TomlValue>,
    p0: Map<Seq<char>, FieldProvenance>,
    p1: Map<Seq<char>, FieldProvenance>,
    p2: Map<Seq<char>, FieldProvenance>,
)
    requires
        scan_defaults_of(plugins, proc_type) is Some ==> scan_defaults_applied(t0, t1, scan_defaults_of(plugins, proc_type)->0)
            && adds_only(t0, t1, scan_default_keys())
            && provenance_extended(p0, p1, t0, t1, FieldProvenance::ScanDefault),
        scan_defaults_of(plugins, proc_type) is None ==> t1 == t0 && p1 == p0,
        defaults_of(plugins, proc_type) is Some ==> processor_defaults_applied(t1, t2, defaults_of(plugins, proc_type)->0)
            && adds_only(t1, t2, processor_default_keys())
            && provenance_extended(p1, p2, t1, t2, FieldProvenance::ProcessorDefault),
        defaults_of(plugins, proc_type) is None ==> t2 == t1 && p2 == p1,
    ensures
        defaults_resolved(plugins, proc_type, t0, t2),
        origins_recorded(p0, p2, t0, t2),
{
    lemma_default_keys_disjoint();
    reveal_strlit("command");
    reveal_strlit("output_dir");
    reveal_strlit("dep_auto");
    reveal_strlit("formats");
    reveal_strlit("args");
    reveal_strlit("batch");
    let ks = if scan_defaults_of(plugins, proc_type) is Some { scan_default_keys() } else { Set::empty() };
    let kp = if defaults_of(plugins, proc_type) is Some { processor_default_keys() } else { Set::empty() };
    assert(keeps_entries(t0, t1) && adds_only(t0, t1, ks));
    assert(keeps_entries(t1, t2) && adds_only(t1, t2, kp));
    assert(keeps_entries(t0, t2));
    assert forall|k: Seq<char>| #[trigger] t2.contains_key(k) && !t0.contains_key(k) implies (ks + kp).contains(k) by {
        if t1.contains_key(k) {
            assert(ks.contains(k));
        } else {
            assert(kp.contains(k));
        }
    }
    if let Some(d) = defaults_of(plugins, proc_type) {
        assert forall|k: Seq<char>| processor_default_keys().contains(k) && !t0.contains_key(k) implies !#[trigger] t1.contains_key(k) by {
            if t1.contains_key(k) {
                assert(ks.contains(k));
            }
        }
        assert(!t0.contains_key("command"@) ==> !t1.contains_key("command"@));
        assert(!t0.contains_key("output_dir"@) ==> !t1.contains_key("output_dir"@));
        assert(!t0.contains_key("dep_auto"@) ==> !t1.contains_key("dep_auto"@));
        assert(!t0.contains_key("formats"@) ==> !t1.contains_key("formats"@));
        assert(!t0.contains_key("args"@) ==> !t1.contains_key("args"@));
        assert(!t0.contains_key("batch"@) ==> !t1.contains_key("batch"@));
    }
    assert forall|k: Seq<char>| #[trigger] p2.contains_key(k) <==> p0.contains_key(k) || (t2.contains_key(k) && !t0.contains_key(k)) by {
        if t1.contains_key(k) {
            assert(t2.contains_key(k));
        }
    }
    assert forall|k: Seq<char>| !p0.contains_key(k) && t2.contains_key(k) && !t0.contains_key(k) implies #[trigger] p2[k] == default_origin(k) by {
        if t1.contains_key(k) {
            assert(ks.contains(k));
            assert(p1.contains_key(k));
        } else {
            assert(kp.contains(k));
            assert(!ks.contains(k));
            if p1.contains_key(k) {
                assert(t1.contains_key(k));
            }
        }
    }
}

/// Fills in the scan defaults, then the processor defaults, of a builtin
/// type. A value that is not a table, or a type the registry does not
/// know, is left alone.
pub fn resolve_instance_defaults(plugins: &[ProcessorPlugin], proc_type: &str, value: &mut TomlValue, provenance: &mut ProvenanceMap)
    requires
        value_sorted(*old(value)),
        old(provenance).wf(),
    ensures
        value_sorted(*final(value)),
        final(provenance).wf(),
        *old(value) matches TomlValue::Table(e0) ==> (*final(value) matches TomlValue::Table(e1)
            && defaults_resolved(plugins@, proc_type@, table_view(e0@), table_view(e1@))
            && origins_recorded(old(provenance)@, final(provenance)@, table_view(e0@), table_view(e1@))),
        !(*old(value) is Table) ==> *final(value) == *old(value) && final(provenance)@ == old(provenance)@,
{
    let ghost v0 = *value;
    let ghost p0 = provenance@;
    apply_scan_defaults(plugins, proc_type, value, provenance);
    let ghost v1 = *value;
    let ghost p1 = provenance@;
    apply_processor_defaults(plugins, proc_type, value, provenance);
    proof {
        if let TomlValue::Table(e0) = v0 {
            let e1 = v1->Table_0;
            let e2 = value->Table_0;
            lemma_defaults_compose(plugins@, proc_type@, table_view(e0@), table_view(e1@), table_view(e2@), p0, p1, provenance@);
        }
    }
}

/// The scan fields every processor takes.
pub open spec fn scan_config_fields_spec() -> Seq<Seq<char>> {
    str_views(seq!["src_dirs", "src_extensions", "src_exclude_dirs", "src_exclude_files", "src_exclude_paths", "src_files"])
}

/// The scan fields every processor takes.
pub fn scan_config_fields() -> (r: Vec<&'static str>)
    ensures
        str_views(r@) == scan_config_fields_spec(),
{
    let r = vec!["src_dirs", "src_extensions", "src_exclude_dirs", "src_exclude_files", "src_exclude_paths", "src_files"];
    proof {
        assert(str_views(r@) =~= scan_config_fields_spec());
    }
    r
}

/// The fields a section of this type may set: its known fields, the scan
/// fields, and `enabled`.
pub open spec fn section_fields(p: ProcessorPlugin) -> Seq<Seq<char>> {
    known_fields_spec(p) + scan_config_fields_spec() + str_views(seq!["enabled"])
}

/// The fields a section of a type may set, when the registry knows it.
pub open spec fn section_fields_of(plugins: Seq<ProcessorPlugin>, proc_type: Seq<char>) -> Option<Seq<Seq<char>>> {
    match registered(plugins, proc_type) {
        Some(p) => Some(section_fields(p)),
        None => None,
    }
}

/// The fields a section of a builtin type may set, or `None` for a type
/// the registry does not know.
pub fn section_field_list(plugins: &[ProcessorPlugin], proc_type: &str) -> (r: Option<Vec<&'static str>>)
    ensures
        r is Some <==> section_fields_of(plugins@, proc_type@) is Some,
        r matches Some(v) ==> str_views(v@) == section_fields_of(plugins@, proc_type@)->0,
{
    let mut fields: Vec<&'static str> = match known_fields_for(plugins, proc_type) {
        Some(f) => f,
        None => {
            return None;
        },
    };
    let ghost k0 = str_views(fields@);
    let mut scan: Vec<&'static str> = scan_config_fields();
    fields.append(&mut scan);
    fields.push("enabled");
    proof {
        assert(str_views(fields@) =~= k0 + scan_config_fields_spec() + str_views(seq!["enabled"]));
    }
    Some(fields)
}

/// The keys of a table, in order, that are among `fields`.
pub open spec fn keys_in(entries: Seq<(String, TomlValue)>, fields: Seq<Seq<char>>) -> Seq<Seq<char>>
    decreases entries.len(),
{
    if entries.len() == 0 {
        Seq::empty()
    } else {
        let rest = keys_in(entries.drop_last(), fields);
        if fields.contains(entries.last().0@) {
            rest.push(entries.last().0@)
        } else {
            rest
        }
    }
}

/// Every value of the table is a table.
pub open spec fn all_tables(entries: Seq<(String, TomlValue)>) -> bool {
    forall|i: int| 0 <= i < entries.len() ==> #[trigger] entries[i].1 is Table
}

/// The shape of a section, given the fields its type may set (`None` for a
/// type the registry does not know): an empty section, or one of an
/// unknown type, is one instance; one holding only sub-tables none named
/// like a field is a set of named instances; one holding only sub-tables
/// some named like fields is ambiguous, naming those; anything else is one
/// instance.
pub open spec fn shape_is(r: SectionShape, fields: Option<Seq<Seq<char>>>, entries: Seq<(String, TomlValue)>) -> bool {
    if entries.len() == 0 || fields is None {
        r == SectionShape::SingleInstance
    } else if !all_tables(entries) {
        r == SectionShape::SingleInstance
    } else if keys_in(entries, fields->0).len() == 0 {
        r == SectionShape::MultiInstance
    } else {
        r matches SectionShape::Ambiguous { colliding } && strs(colliding@) == keys_in(entries, fields->0)
    }
}

/// A section is a set of named instances.
pub open spec fn multi_instance(fields: Option<Seq<Seq<char>>>, entries: Seq<(String, TomlValue)>) -> bool {
    entries.len() > 0 && fields is Some && all_tables(entries) && keys_in(entries, fields->0).len() == 0
}

/// An instance made from a section: its names, and its config, the raw
/// one with its type's defaults filled in, with the origin of every field.
pub open spec fn instance_made(
    plugins: Seq<ProcessorPlugin>,
    inst: ProcessorInstance,
    name: Seq<char>,
    proc_type: Seq<char>,
    raw: TomlValue,
) -> bool {
    &&& inst.instance_name@ == name
    &&& inst.proc_type@ == proc_type
    &&& inst.provenance.wf()
    &&& value_sorted(inst.config_toml)
    &&& match raw {
        TomlValue::Table(e0) => inst.config_toml matches TomlValue::Table(e1)
            && defaults_resolved(plugins, proc_type, table_view(e0@), table_view(e1@))
            && origins_recorded(seeded(raw), inst.provenance@, table_view(e0@), table_view(e1@)),
        _ => inst.config_toml == raw && inst.provenance@ == seeded(raw),
    }
}

/// The instances a `[processor.KEY]` section declares: (instance name,
/// type, raw config). A builtin type's section of named instances gives
/// `KEY.NAME` for each; any other section of a builtin type gives one
/// instance `KEY`; a section of an unknown type, or a value that is not a
/// table, gives none.
pub open spec fn section_instances(plugins: Seq<ProcessorPlugin>, key: Seq<char>, val: TomlValue) -> Seq<(Seq<char>, Seq<char>, TomlValue)> {
    match val {
        TomlValue::Table(sub) => if registered(plugins, key) is Some {
            if multi_instance(section_fields_of(plugins, key), sub@) {
                sub@.map_values(|e: (String, TomlValue)| (key + "."@ + e.0@, key, e.1))
            } else {
                seq![(key, key, val)]
            }
        } else {
            Seq::empty()
        },
        _ => Seq::empty(),
    }
}

/// The instances the entries of the `[processor]` table declare, in order.
pub open spec fn declared_instances(plugins: Seq<ProcessorPlugin>, entries: Seq<(String, TomlValue)>) -> Seq<(Seq<char>, Seq<char>, TomlValue)>
    decreases entries.len(),
{
    if entries.len() == 0 {
        Seq::empty()
    } else {
        declared_instances(plugins, entries.drop_last()) + section_instances(plugins, entries.last().0@, entries.last().1)
    }
}

/// The sections of types the registry does not know (plugins of the
/// project), in order.
pub open spec fn plugin_sections(plugins: Seq<ProcessorPlugin>, entries: Seq<(String, TomlValue)>) -> Seq<(Seq<char>, TomlValue)>
    decreases entries.len(),
{
    if entries.len() == 0 {
        Seq::empty()
    } else {
        let rest = plugin_sections(plugins, entries.drop_last());
        if entries.last().1 is Table && registered(plugins, entries.last().0@) is None {
            rest.push((entries.last().0@, entries.last().1))
        } else {
            rest
        }
    }
}

/// The `[processor]` table's tables have their keys in order, down to the
/// instances' own tables.
pub open spec fn sections_sorted(v: TomlValue) -> bool {
    v matches TomlValue::Table(e) ==> table_sorted(e@) && forall|i: int|
        0 <= i < e@.len() ==> section_sorted(#[trigger] e@[i].1)
}

/// A section's table, and its sub-tables, have their keys in order.
pub open spec fn section_sorted(v: TomlValue) -> bool {
    v matches TomlValue::Table(sub) ==> table_sorted(sub@) && forall|j: int|
        0 <= j < sub@.len() ==> value_sorted(#[trigger] sub@[j].1)
}

/// The kept sections are, in order, those named in `x`.
pub open spec fn sections_kept(extra: Seq<(String, TomlValue)>, x: Seq<(Seq<char>, TomlValue)>) -> bool {
    &&& extra.len() == x.len()
    &&& forall|q: int| 0 <= q < x.len() ==> (#[trigger] extra[q]).0@ == x[q].0 && extra[q].1 == x[q].1
}

/// One declared processor instance: `pylint` for a single instance,
/// `pylint.core` for a named one, with its type, its config with the
/// defaults filled in, and the origin of every field.
#[derive(Debug)]
pub struct ProcessorInstance {
    pub instance_name: String,
    pub proc_type: String,
    pub config_toml: TomlValue,
    pub provenance: ProvenanceMap,
}

/// The declared processor instances, and the sections of processor types
/// the registry does not know (plugins of the project), by name.
#[derive(Debug)]
pub struct ProcessorConfig {
    pub instances: Vec<ProcessorInstance>,
    pub extra: Vec<(String, TomlValue)>,
}

impl ProcessorConfig {
    /// The keys of `entries` that are among `fields`, in order.
    fn colliding_keys(entries: &Vec<(String, TomlValue)>, fields: &Vec<&'static str>) -> (r: Vec<String>)
        ensures
            strs(r@) == keys_in(entries@, str_views(fields@)),
    {
        let mut r: Vec<String> = Vec::new();
        let mut i: usize = 0;
        while i < entries.len()
            invariant
                0 <= i <= entries.len(),
                strs(r@) == keys_in(entries@.take(i as int), str_views(fields@)),
            decreases entries.len() - i,
        {
            proof {
                assert(entries@.take(i + 1).drop_last() =~= entries@.take(i as int));
            }
            if strs_contain(fields.as_slice(), entries[i].0.as_str()) {
                let ghost before = strs(r@);
                r.push(entries[i].0.clone());
                proof {
                    assert(strs(r@) =~= before.push(entries@[i as int].0@));
                }
            }
            i = i + 1;
        }
        proof {
            assert(entries@.take(entries@.len() as int) =~= entries@);
        }
        r
    }

    /// The shape of a `[processor.TYPE]` section: one instance, named
    /// instances, or ambiguous (naming the keys that read as both a field
    /// and an instance).
    pub fn classify_section(plugins: &[ProcessorPlugin], proc_type: &str, table: &Vec<(String, TomlValue)>) -> (r: SectionShape)
        ensures
            shape_is(r, section_fields_of(plugins@, proc_type@), table@),
    {
        if table.len() == 0 {
            return SectionShape::SingleInstance;
        }
        let fields: Vec<&'static str> = match section_field_list(plugins, proc_type) {
            Some(f) => f,
            None => {
                return SectionShape::SingleInstance;
            },
        };
        let mut all: bool = true;
        let mut i: usize = 0;
        while i < table.len()
            invariant
                0 <= i <= table.len(),
                all == forall|j: int| 0 <= j < i ==> #[trigger] table@[j].1 is Table,
            decreases table.len() - i,
        {
            if !matches!(&table[i].1, TomlValue::Table(_)) {
                all = false;
            }
            i = i + 1;
        }
        let colliding: Vec<String> = Self::colliding_keys(table, &fields);
        if !all {
            return SectionShape::SingleInstance;
        }
        if colliding.len() == 0 {
            SectionShape::MultiInstance
        } else {
            SectionShape::Ambiguous { colliding }
        }
    }

    /// Whether a section is a set of named instances; an ambiguous one is
    /// not.
    pub fn is_multi_instance(plugins: &[ProcessorPlugin], proc_type: &str, table: &Vec<(String, TomlValue)>) -> (r: bool)
        ensures
            r == multi_instance(section_fields_of(plugins@, proc_type@), table@),
    {
        match Self::classify_section(plugins, proc_type, table) {
            SectionShape::MultiInstance => true,
            _ => false,
        }
    }

    /// Makes one instance from its raw config: the fields it sets are
    /// marked as set in the project file, then its type's defaults are
    /// filled in.
    fn make_instance(plugins: &[ProcessorPlugin], name: String, proc_type: String, raw: TomlValue) -> (r: ProcessorInstance)
        requires
            value_sorted(raw),
        ensures
            instance_made(plugins@, r, name@, proc_type@, raw),
    {
        let mut provenance = seed_user_provenance(&raw);
        let ghost raw0 = raw;
        let mut config = raw;
        resolve_instance_defaults(plugins, proc_type.as_str(), &mut config, &mut provenance);
        ProcessorInstance { instance_name: name, proc_type, config_toml: config, provenance }
    }

    /// Adds what one `[processor.KEY]` section declares: its instances, or
    /// the section itself when its type is not builtin.
    fn add_section(
        plugins: &[ProcessorPlugin],
        key: String,
        val: TomlValue,
        instances: &mut Vec<ProcessorInstance>,
        extra: &mut Vec<(String, TomlValue)>,
    )
        requires
            section_sorted(val),
        ensures
            final(instances)@.len() == old(instances)@.len() + section_instances(plugins@, key@, val).len(),
            forall|i: int| 0 <= i < old(instances)@.len() ==> #[trigger] final(instances)@[i] == old(instances)@[i],
            forall|j: int| 0 <= j < section_instances(plugins@, key@, val).len() ==> #[trigger] instance_made(
                plugins@,
                final(instances)@[old(instances)@.len() + j],
                section_instances(plugins@, key@, val)[j].0,
                section_instances(plugins@, key@, val)[j].1,
                section_instances(plugins@, key@, val)[j].2,
            ),
            val is Table && registered(plugins@, key@) is None ==> final(extra)@.len() == old(extra)@.len() + 1
                && final(extra)@[old(extra)@.len() as int].0@ == key@ && final(extra)@[old(extra)@.len() as int].1 == val
                && forall|i: int| 0 <= i < old(extra)@.len() ==> #[trigger] final(extra)@[i] == old(extra)@[i],
            !(val is Table && registered(plugins@, key@) is None) ==> final(extra)@ == old(extra)@,
    {
        let ghost v0 = val;
        let ghost n0 = instances@.len();
        let builtin: bool = crate::config::registry::is_builtin_type(plugins, key.as_str());
        match val {
            TomlValue::Table(mut sub) => {
                if !builtin {
                    extra.push((key, TomlValue::Table(sub)));
                    return;
                }
                if Self::is_multi_instance(plugins, key.as_str(), &sub) {
                    let total: usize = sub.len();
                    let ghost sub0 = sub@;
                    let ghost si = section_instances(plugins@, key@, v0);
                    proof {
                        assert(si == sub0.map_values(|e: (String, TomlValue)| (key@ + "."@ + e.0@, key@, e.1)));
                    }
                    let mut j: usize = 0;
                    while sub.len() > 0
                        invariant
                            0 <= j <= sub0.len(),
                            sub0.len() == total,
                            sub@ == sub0.skip(j as int),
                            si == sub0.map_values(|e: (String, TomlValue)| (key@ + "."@ + e.0@, key@, e.1)),
                            forall|q: int| 0 <= q < sub0.len() ==> value_sorted(#[trigger] sub0[q].1),
                            instances@.len() == n0 + j,
                            forall|i: int| 0 <= i < n0 ==> #[trigger] instances@[i] == old(instances)@[i],
                            forall|q: int| 0 <= q < j ==> #[trigger] instance_made(plugins@, instances@[n0 + q], si[q].0, si[q].1, si[q].2),
                        decreases sub.len(),
                    {
                        proof {
                            assert(sub@[0] == sub0[j as int]);
                        }
                        let (name, inst_val) = sub.remove(0);
                        let mut full: String = key.clone();
                        full.append(".");
                        full.append(name.as_str());
                        let inst = Self::make_instance(plugins, full, key.clone(), inst_val);
                        instances.push(inst);
                        proof {
                            assert(sub@ =~= sub0.skip(j + 1));
                            assert(si[j as int] == (key@ + "."@ + sub0[j as int].0@, key@, sub0[j as int].1));
                        }
                        j = j + 1;
                    }
                    proof {
                        assert(sub0.skip(j as int).len() == 0);
                    }
                } else {
                    let ghost si = section_instances(plugins@, key@, v0);
                    proof {
                        assert(si == seq![(key@, key@, v0)]);
                    }
                    let inst = Self::make_instance(plugins, key.clone(), key, TomlValue::Table(sub));
                    instances.push(inst);
                }
            },
            _ => {},
        }
    }

    /// Reads the `[processor]` table into instances: for each section of a
    /// builtin type, one instance (`TYPE`) or one per named sub-table
    /// (`TYPE.NAME`), each with its type's defaults filled in; the sections
    /// of other types are kept as they are. Entries that are not tables are
    /// skipped.
    pub fn from_toml(plugins: &[ProcessorPlugin], value: TomlValue) -> (r: ProcessorConfig)
        requires
            sections_sorted(value),
        ensures
            value matches TomlValue::Table(e) ==> ({
                let decl = declared_instances(plugins@, e@);
                let ext = plugin_sections(plugins@, e@);
                &&& r.instances@.len() == decl.len()
                &&& forall|i: int| 0 <= i < decl.len() ==> #[trigger] instance_made(plugins@, r.instances@[i], decl[i].0, decl[i].1, decl[i].2)
                &&& sections_kept(r.extra@, ext)
            }),
            !(value is Table) ==> r.instances@.len() == 0 && r.extra@.len() == 0,
            r.wf(),
    {
        let mut instances: Vec<ProcessorInstance> = Vec::new();
        let mut extra: Vec<(String, TomlValue)> = Vec::new();
        match value {
            TomlValue::Table(mut entries) => {
                let total: usize = entries.len();
                let ghost e0 = entries@;
                let mut i: usize = 0;
                while entries.len() > 0
                    invariant
                        0 <= i <= e0.len(),
                        e0.len() == total,
                        entries@ == e0.skip(i as int),
                        forall|q: int| 0 <= q < e0.len() ==> section_sorted(#[trigger] e0[q].1),
                        instances@.len() == declared_instances(plugins@, e0.take(i as int)).len(),
                        forall|q: int| 0 <= q < declared_instances(plugins@, e0.take(i as int)).len() ==> #[trigger] instance_made(
                            plugins@,
                            instances@[q],
                            declared_instances(plugins@, e0.take(i as int))[q].0,
                            declared_instances(plugins@, e0.take(i as int))[q].1,
                            declared_instances(plugins@, e0.take(i as int))[q].2,
                        ),
                        sections_kept(extra@, plugin_sections(plugins@, e0.take(i as int))),
                    decreases entries.len(),
                {
                    proof {
                        assert(entries@[0] == e0[i as int]);
                    }
                    let (key, val) = entries.remove(0);
                    let ghost d0 = declared_instances(plugins@, e0.take(i as int));
                    let ghost x0 = plugin_sections(plugins@, e0.take(i as int));
                    let ghost old_inst = instances@;
                    let ghost old_extra = extra@;
                    let ghost kv = key@;
                    let ghost vv = val;
                    Self::add_section(plugins, key, val, &mut instances, &mut extra);
                    proof {
                        let t1 = e0.take(i + 1);
                        assert(t1.drop_last() =~= e0.take(i as int));
                        assert(t1.last() == e0[i as int]);
                        let d1 = declared_instances(plugins@, t1);
                        let si = section_instances(plugins@, kv, vv);
                        assert(d1 == d0 + si);
                        assert forall|q: int| 0 <= q < d1.len() implies #[trigger] instance_made(plugins@, instances@[q], d1[q].0, d1[q].1, d1[q].2) by {
                            if q < d0.len() {
                                assert(instances@[q] == old_inst[q]);
                                assert(d1[q] == d0[q]);
                            } else {
                                let j = q - d0.len();
                                assert(d1[q] == si[j]);
                                assert(instance_made(plugins@, instances@[old_inst.len() + j], si[j].0, si[j].1, si[j].2));
                            }
                        }
                        let x1 = plugin_sections(plugins@, t1);
                        if vv is Table && registered(plugins@, kv) is None {
                            assert(x1 == x0.push((kv, vv)));
                        } else {
                            assert(x1 == x0);
                            assert(extra@ == old_extra);
                        }
                        assert forall|q: int| 0 <= q < x1.len() implies #[trigger] extra@[q].0@ == x1[q].0 && extra@[q].1 == x1[q].1 by {
                            if q < x0.len() {
                                assert(x1[q] == x0[q]);
                                assert(extra@[q] == old_extra[q]);
                            } else {
                                assert(vv is Table && registered(plugins@, kv) is None);
                                assert(q == old_extra.len());
                                assert(x1[q] == (kv, vv));
                                assert(extra@[q].0@ == kv);
                                assert(extra@[q].1 == vv);
                            }
                        }
                        assert(sections_kept(extra@, x1));
                        assert(entries@ =~= e0.skip(i + 1));
                    }
                    i = i + 1;
                }
                proof {
                    assert(e0.skip(i as int).len() == 0);
                    assert(e0.take(i as int) =~= e0);
                    let decl = declared_instances(plugins@, e0);
                    assert forall|q: int| 0 <= q < instances@.len() implies #[trigger] instance_wf(instances@[q]) by {
                        assert(instance_made(plugins@, instances@[q], decl[q].0, decl[q].1, decl[q].2));
                    }
                }
            },
            _ => {},
        }
        ProcessorConfig { instances, extra }
    }

    /// Every instance's config keeps its keys in order and its origins once
    /// per field.
    pub open spec fn wf(&self) -> bool {
        forall|i: int| 0 <= i < self.instances@.len() ==> #[trigger] instance_wf(self.instances@[i])
    }

    /// The first instance of a type, if one is declared.
    pub fn first_instance_of_type(&self, proc_type: &str) -> (r: Option<&ProcessorInstance>)
        ensures
            r is Some <==> first_of_type(self.instances@, proc_type@, 0) is Some,
            r matches Some(inst) ==> *inst == self.instances@[first_of_type(self.instances@, proc_type@, 0)->0 as int],
    {
        let mut i: usize = 0;
        while i < self.instances.len()
            invariant
                0 <= i <= self.instances.len(),
                first_of_type(self.instances@, proc_type@, 0) == first_of_type(self.instances@, proc_type@, i as int),
            decreases self.instances.len() - i,
        {
            if crate::text::str_eq(self.instances[i].proc_type.as_str(), proc_type) {
                return Some(&self.instances[i]);
            }
            i = i + 1;
        }
        None
    }

    /// The text a field of the first instance of a type is set to, when it
    /// is set to a string.
    pub fn instance_field_str(&self, proc_type: &str, field: &str) -> (r: Option<String>)
        requires
            self.wf(),
        ensures
            r matches Some(v) ==> field_text(self.instances@, proc_type@, field@) == Some(v@),
            r is None ==> field_text(self.instances@, proc_type@, field@) is None,
    {
        let inst: &ProcessorInstance = match self.first_instance_of_type(proc_type) {
            Some(inst) => inst,
            None => {
                return None;
            },
        };
        proof {
            lemma_first_of_type(self.instances@, proc_type@, 0);
            assert(instance_wf(self.instances@[first_of_type(self.instances@, proc_type@, 0)->0 as int]));
        }
        match &inst.config_toml {
            TomlValue::Table(entries) => match crate::config::toml_value::table_get(entries, field) {
                Some(TomlValue::String(s)) => Some(s.clone()),
                _ => None,
            },
            _ => None,
        }
    }
}

/// An instance's config keeps its keys in order and its origins once per
/// field.
pub open spec fn instance_wf(inst: ProcessorInstance) -> bool {
    value_sorted(inst.config_toml) && inst.provenance.wf()
}

/// The position of the first instance of a type, from position `k` on.
pub open spec fn first_of_type(insts: Seq<ProcessorInstance>, proc_type: Seq<char>, k: int) -> Option<nat>
    decreases insts.len() - k,
{
    if k < 0 || k >= insts.len() {
        None
    } else if insts[k].proc_type@ == proc_type {
        Some(k as nat)
    } else {
        first_of_type(insts, proc_type, k + 1)
    }
}

/// The first instance of a type from `k` on is of that type, and none
/// before it is.
pub proof fn lemma_first_of_type(insts: Seq<ProcessorInstance>, proc_type: Seq<char>, k: int)
    requires
        0 <= k,
    ensures
        first_of_type(insts, proc_type, k) matches Some(i) ==> k <= i < insts.len() && insts[i as int].proc_type@ == proc_type
            && forall|j: int| k <= j < i ==> insts[j].proc_type@ != proc_type,
        first_of_type(insts, proc_type, k) is None ==> forall|j: int| k <= j < insts.len() ==> insts[j].proc_type@ != proc_type,
    decreases insts.len() - k,
{
    if k < insts.len() {
        lemma_first_of_type(insts, proc_type, k + 1);
    }
}

/// The value of `field` in an instance's config, when it is a table with
/// that key.
pub open spec fn config_field(inst: ProcessorInstance, field: Seq<char>) -> Option<TomlValue> {
    match inst.config_toml {
        TomlValue::Table(e) => if table_view(e@).contains_key(field) {
            Some(table_view(e@)[field])
        } else {
            None
        },
        _ => None,
    }
}

/// The text `field` of the first instance of a type is set to.
pub open spec fn field_text(insts: Seq<ProcessorInstance>, proc_type: Seq<char>, field: Seq<char>) -> Option<Seq<char>> {
    match first_of_type(insts, proc_type, 0) {
        Some(i) => match config_field(insts[i as int], field) {
            Some(TomlValue::String(s)) => Some(s@),
            _ => None,
        },
        None => None,
    }
}

/// The `j`-th entry of an instance's `src_dirs`, when that entry is a
/// string.
pub open spec fn src_dir_at(inst: ProcessorInstance, j: int) -> Option<Seq<char>> {
    match config_field(inst, "src_dirs"@) {
        Some(TomlValue::Array(items)) => if 0 <= j < items@.len() {
            match items@[j] {
                TomlValue::String(x) => Some(x@),
                _ => None,
            }
        } else {
            None
        },
        _ => None,
    }
}

/// Some instance lists `d`, not empty, among its `src_dirs`; looking at the
/// instances before `i`, and the first `j` entries of instance `i`.
pub open spec fn src_dir_seen(insts: Seq<ProcessorInstance>, d: Seq<char>, i: int, j: int) -> bool {
    d.len() > 0 && exists|a: int, b: int|
        0 <= a <= i && a < insts.len() && 0 <= b && (a < i || b < j) && #[trigger] src_dir_at(insts[a], b) == Some(d)
}

impl ProcessorConfig {
    /// Every directory, not empty, that some instance lists in `src_dirs`,
    /// sorted, each once.
    pub fn src_dirs(&self) -> (r: Vec<String>)
        requires
            self.wf(),
        ensures
            strictly_sorted(strs(r@), false),
            forall|d: Seq<char>| #[trigger] strs(r@).contains(d) <==> src_dir_seen(self.instances@, d, self.instances@.len() as int, 0),
    {
        let mut r: Vec<String> = Vec::new();
        proof {
            assert(strictly_sorted(strs(r@), false));
        }
        let mut i: usize = 0;
        while i < self.instances.len()
            invariant
                0 <= i <= self.instances.len(),
                self.wf(),
                strictly_sorted(strs(r@), false),
                forall|d: Seq<char>| #[trigger] strs(r@).contains(d) <==> src_dir_seen(self.instances@, d, i as int, 0),
            decreases self.instances.len() - i,
        {
            let inst: &ProcessorInstance = &self.instances[i];
            proof {
                assert(instance_wf(self.instances@[i as int]));
            }
            let dirs: Option<&Vec<TomlValue>> = match &inst.config_toml {
                TomlValue::Table(entries) => match crate::config::toml_value::table_get(entries, "src_dirs") {
                    Some(TomlValue::Array(items)) => Some(items),
                    _ => None,
                },
                _ => None,
            };
            match dirs {
                Some(items) => {
                    let mut j: usize = 0;
                    while j < items.len()
                        invariant
                            0 <= j <= items.len(),
                            0 <= i < self.instances.len(),
                            config_field(self.instances@[i as int], "src_dirs"@) == Some(TomlValue::Array(*items)),
                            strictly_sorted(strs(r@), false),
                            forall|d: Seq<char>| #[trigger] strs(r@).contains(d) <==> src_dir_seen(self.instances@, d, i as int, j as int),
                        decreases items.len() - j,
                    {
                        match &items[j] {
                            TomlValue::String(x) => {
                                if !x.as_str().is_empty() {
                                    sorted_insert(&mut r, x.clone(), false);
                                }
                            },
                            _ => {},
                        }
                        proof {
                            assert forall|d: Seq<char>| #[trigger] strs(r@).contains(d) <==> src_dir_seen(self.instances@, d, i as int, j + 1) by {
                                if src_dir_seen(self.instances@, d, i as int, j + 1) && !src_dir_seen(self.instances@, d, i as int, j as int) {
                                    let (a, b) = choose|a: int, b: int|
                                        0 <= a <= i && a < self.instances@.len() && 0 <= b && (a < i || b < j + 1) && #[trigger] src_dir_at(self.instances@[a], b) == Some(d);
                                    assert(a == i && b == j);
                                }
                                if src_dir_seen(self.instances@, d, i as int, j as int) {
                                    let (a, b) = choose|a: int, b: int|
                                        0 <= a <= i && a < self.instances@.len() && 0 <= b && (a < i || b < j) && #[trigger] src_dir_at(self.instances@[a], b) == Some(d);
                                    assert(src_dir_seen(self.instances@, d, i as int, j + 1));
                                }
                                if items@[j as int] matches TomlValue::String(x) && x@.len() > 0 && d == x@ {
                                    assert(src_dir_at(self.instances@[i as int], j as int) == Some(d));
                                }
                            }
                        }
                        j = j + 1;
                    }
                    proof {
                        assert forall|d: Seq<char>| #[trigger] strs(r@).contains(d) <==> src_dir_seen(self.instances@, d, i + 1, 0) by {
                            if src_dir_seen(self.instances@, d, i + 1, 0) {
                                let (a, b) = choose|a: int, b: int|
                                    0 <= a <= i + 1 && a < self.instances@.len() && 0 <= b && (a < i + 1 || b < 0) && #[trigger] src_dir_at(self.instances@[a], b) == Some(d);
                                if a == i {
                                    assert(b < items@.len());
                                }
                                assert(src_dir_seen(self.instances@, d, i as int, j as int));
                            }
                            if src_dir_seen(self.instances@, d, i as int, j as int) {
                                let (a, b) = choose|a: int, b: int|
                                    0 <= a <= i && a < self.instances@.len() && 0 <= b && (a < i || b < j) && #[trigger] src_dir_at(self.instances@[a], b) == Some(d);
                                assert(src_dir_seen(self.instances@, d, i + 1, 0));
                            }
                        }
                    }
                },
                None => {
                    proof {
                        assert forall|b: int| #[trigger] src_dir_at(self.instances@[i as int], b) is None by {}
                        assert forall|d: Seq<char>| #[trigger] strs(r@).contains(d) <==> src_dir_seen(self.instances@, d, i + 1, 0) by {
                            if src_dir_seen(self.instances@, d, i + 1, 0) {
                                let (a, b) = choose|a: int, b: int|
                                    0 <= a <= i + 1 && a < self.instances@.len() && 0 <= b && (a < i + 1 || b < 0) && #[trigger] src_dir_at(self.instances@[a], b) == Some(d);
                                assert(a != i);
                                assert(src_dir_seen(self.instances@, d, i as int, 0));
                            }
                            if src_dir_seen(self.instances@, d, i as int, 0) {
                                let (a, b) = choose|a: int, b: int|
                                    0 <= a <= i && a < self.instances@.len() && 0 <= b && (a < i || b < 0) && #[trigger] src_dir_at(self.instances@[a], b) == Some(d);
                                assert(src_dir_seen(self.instances@, d, i + 1, 0));
                            }
                        }
                    }
                },
            }
            i = i + 1;
        }
        r
    }
}

/// The part of `val` after `out/TYPE`, when `val` is that directory or a
/// path under it.
pub open spec fn under_type_default(val: Seq<char>, proc_type: Seq<char>) -> Option<Seq<char>> {
    let tp = "out/"@ + proc_type;
    if is_prefix(val, tp) && (val.len() == tp.len() || val[tp.len() as int] == '/') {
        Some(val.skip(tp.len() as int))
    } else {
        None
    }
}

/// The new value of an output path: a named instance's `out/TYPE...`
/// becomes `GLOBAL/INSTANCE...`; otherwise, with a global output directory
/// other than `out`, `out/...` becomes `GLOBAL/...`; anything else stays.
pub open spec fn output_rewrite(val: Seq<char>, proc_type: Seq<char>, instance_name: Seq<char>, global: Seq<char>) -> Option<Seq<char>> {
    if instance_name != proc_type && under_type_default(val, proc_type) is Some {
        Some(global + "/"@ + instance_name + under_type_default(val, proc_type)->0)
    } else if global != "out"@ && is_prefix(val, "out/"@) {
        Some(global + "/"@ + val.skip(4))
    } else {
        None
    }
}

/// The user chose the field's value: in the project file or on the
/// command line.
pub open spec fn chosen_by_user(p: Map<Seq<char>, FieldProvenance>, field: Seq<char>) -> bool {
    p.contains_key(field) && (p[field] is UserToml || p[field] is CliOverride)
}

/// The rewrite of an instance's output field: none where the user chose
/// it or it is not a string.
pub open spec fn field_rewrite(inst: ProcessorInstance, field: Seq<char>, global: Seq<char>) -> Option<Seq<char>> {
    if chosen_by_user(inst.provenance@, field) {
        None
    } else {
        match config_field(inst, field) {
            Some(TomlValue::String(v)) => output_rewrite(v@, inst.proc_type@, inst.instance_name@, global),
            _ => None,
        }
    }
}

/// One output field of an instance after its rewrite: set to the new path
/// and marked as an output-directory default, or, with no rewrite, the
/// instance unchanged.
pub open spec fn field_rewritten(a: ProcessorInstance, b: ProcessorInstance, field: Seq<char>, global: Seq<char>) -> bool {
    &&& b.instance_name == a.instance_name
    &&& b.proc_type == a.proc_type
    &&& match field_rewrite(a, field, global) {
        Some(n) => a.config_toml matches TomlValue::Table(e0) && b.config_toml matches TomlValue::Table(e1)
            && table_view(e1@).dom() == table_view(e0@).dom()
            && (forall|k: Seq<char>| #[trigger] table_view(e0@).contains_key(k) && k != field ==> table_view(e1@)[k] == table_view(e0@)[k])
            && is_text(table_view(e1@)[field], n)
            && b.provenance@ == a.provenance@.insert(field, FieldProvenance::OutputDirDefault),
        None => b.config_toml == a.config_toml && b.provenance@ == a.provenance@,
    }
}

/// The rewritten path, built.
fn rewrite_path(val: &str, proc_type: &str, instance_name: &str, global: &str) -> (r: Option<String>)
    ensures
        r matches Some(n) ==> output_rewrite(val@, proc_type@, instance_name@, global@) == Some(n@),
        r is None ==> output_rewrite(val@, proc_type@, instance_name@, global@) is None,
{
    let mut tp: String = String::from_str("out/");
    tp.append(proc_type);
    proof {
        reveal_strlit("out/");
        reveal_strlit("out");
        reveal_strlit("/");
    }
    let chars = crate::text::chars_of(val);
    let tl: usize = crate::text::chars_of(tp.as_str()).len();
    let type_rest: bool = str_starts_with(val, tp.as_str()) && (chars.len() == tl || chars[tl] == '/');
    proof {
        assert(type_rest == under_type_default(val@, proc_type@) is Some);
    }
    if !str_eq(instance_name, proc_type) && type_rest {
        let rest: String = crate::text::string_between(&chars, tl, chars.len());
        let mut n: String = String::from_str(global);
        n.append("/");
        n.append(instance_name);
        n.append(rest.as_str());
        proof {
            assert(rest@ =~= val@.skip(tl as int));
        }
        return Some(n);
    }
    if !str_eq(global, "out") && str_starts_with(val, "out/") {
        let rest: String = crate::text::string_between(&chars, 4, chars.len());
        let mut n: String = String::from_str(global);
        n.append("/");
        n.append(rest.as_str());
        proof {
            assert(rest@ =~= val@.skip(4));
        }
        return Some(n);
    }
    None
}

/// Rewrites one output field of an instance.
fn rewrite_output_field(inst: &mut ProcessorInstance, field: &str, global: &str)
    requires
        instance_wf(*old(inst)),
    ensures
        instance_wf(*final(inst)),
        field_rewritten(*old(inst), *final(inst), field@, global@),
{
    let user: bool = match inst.provenance.get(field) {
        Some(FieldProvenance::UserToml { .. }) => true,
        Some(FieldProvenance::CliOverride) => true,
        _ => false,
    };
    if user {
        return;
    }
    let new_val: Option<String> = match &inst.config_toml {
        TomlValue::Table(entries) => match table_get(entries, field) {
            Some(TomlValue::String(v)) => rewrite_path(v.as_str(), inst.proc_type.as_str(), inst.instance_name.as_str(), global),
            _ => None,
        },
        _ => None,
    };
    let n: String = match new_val {
        Some(n) => n,
        None => {
            return;
        },
    };
    let ghost a = *inst;
    let ghost nv = n@;
    proof {
        assert(field_rewrite(a, field@, global@) == Some(nv));
    }
    match &mut inst.config_toml {
        TomlValue::Table(entries) => {
            table_set(entries, field, TomlValue::String(n));
        },
        _ => {},
    }
    inst.provenance.insert(field, FieldProvenance::OutputDirDefault);
    proof {
        let e0 = a.config_toml->Table_0;
        let e1 = inst.config_toml->Table_0;
        assert(inst.config_toml is Table);
        assert(table_view(e1@).dom() =~= table_view(e0@).dom());
        assert(is_text(table_view(e1@)[field@], nv));
    }
}

impl ProcessorConfig {
    /// Rewrites the output paths of the instances that the user did not
    /// set: a named instance's `out/TYPE...` becomes
    /// `GLOBAL/INSTANCE...`, so each instance gets its own directory;
    /// otherwise, with a global output directory other than `out`,
    /// `out/...` becomes `GLOBAL/...`. Each rewritten field is marked as an
    /// output-directory default. Both `output_dir` and `output` are
    /// rewritten.
    pub fn apply_output_dir_defaults(&mut self, global_output_dir: &str)
        requires
            old(self).wf(),
        ensures
            final(self).wf(),
            final(self).extra == old(self).extra,
            final(self).instances@.len() == old(self).instances@.len(),
            forall|i: int| 0 <= i < old(self).instances@.len() ==> #[trigger] output_dirs_rewritten(
                old(self).instances@[i],
                final(self).instances@[i],
                global_output_dir@,
            ),
    {
        let mut i: usize = 0;
        while i < self.instances.len()
            invariant
                0 <= i <= self.instances.len(),
                self.wf(),
                self.extra == old(self).extra,
                self.instances@.len() == old(self).instances@.len(),
                forall|q: int| i <= q < self.instances@.len() ==> #[trigger] self.instances@[q] == old(self).instances@[q],
                forall|q: int| 0 <= q < i ==> #[trigger] output_dirs_rewritten(old(self).instances@[q], self.instances@[q], global_output_dir@),
            decreases self.instances.len() - i,
        {
            proof {
                assert(instance_wf(self.instances@[i as int]));
            }
            let ghost a = self.instances@[i as int];
            let inst: &mut ProcessorInstance = &mut self.instances[i];
            rewrite_output_field(inst, "output_dir", global_output_dir);
            let ghost m = *inst;
            rewrite_output_field(inst, "output", global_output_dir);
            proof {
                assert(field_rewritten(a, m, "output_dir"@, global_output_dir@));
                assert(field_rewritten(m, *inst, "output"@, global_output_dir@));
            }
            i = i + 1;
        }
    }
}

/// An instance after its output paths were rewritten: `output_dir`, then
/// `output`.
pub open spec fn output_dirs_rewritten(a: ProcessorInstance, b: ProcessorInstance, global: Seq<char>) -> bool {
    exists|m: ProcessorInstance| field_rewritten(a, m, "output_dir"@, global) && #[trigger] field_rewritten(m, b, "output"@, global)
}

/// An instance after its type's defaults were filled in again.
pub open spec fn defaults_refilled(plugins: Seq<ProcessorPlugin>, a: ProcessorInstance, b: ProcessorInstance) -> bool {
    &&& b.instance_name == a.instance_name
    &&& b.proc_type == a.proc_type
    &&& match a.config_toml {
        TomlValue::Table(e0) => b.config_toml matches TomlValue::Table(e1)
            && defaults_resolved(plugins, a.proc_type@, table_view(e0@), table_view(e1@))
            && origins_recorded(a.provenance@, b.provenance@, table_view(e0@), table_view(e1@)),
        _ => b.config_toml == a.config_toml && b.provenance@ == a.provenance@,
    }
}

impl ProcessorConfig {
    /// Fills in the defaults of every instance's type again.
    pub fn resolve_scan_defaults(&mut self, plugins: &[ProcessorPlugin])
        requires
            old(self).wf(),
        ensures
            final(self).wf(),
            final(self).extra == old(self).extra,
            final(self).instances@.len() == old(self).instances@.len(),
            forall|i: int| 0 <= i < old(self).instances@.len() ==> #[trigger] defaults_refilled(
                plugins@,
                old(self).instances@[i],
                final(self).instances@[i],
            ),
    {
        let mut i: usize = 0;
        while i < self.instances.len()
            invariant
                0 <= i <= self.instances.len(),
                self.wf(),
                self.extra == old(self).extra,
                self.instances@.len() == old(self).instances@.len(),
                forall|q: int| i <= q < self.instances@.len() ==> #[trigger] self.instances@[q] == old(self).instances@[q],
                forall|q: int| 0 <= q < i ==> #[trigger] defaults_refilled(plugins@, old(self).instances@[q], self.instances@[q]),
            decreases self.instances.len() - i,
        {
            proof {
                assert(instance_wf(self.instances@[i as int]));
            }
            let inst: &mut ProcessorInstance = &mut self.instances[i];
            resolve_instance_defaults(plugins, inst.proc_type.as_str(), &mut inst.config_toml, &mut inst.provenance);
            i = i + 1;
        }
    }
}

} // verus!
