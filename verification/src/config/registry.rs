//! What the processor registry records of each builtin processor type, and
//! the field lists derived from it: the fields a section may set, the ones
//! that change what a processor produces, and the ones that must be set.
//!
//! The registry is handed in as a list of plugin entries; a type is known
//! by the first entry of its name.

use vstd::prelude::*;
use crate::config::{FieldSpec, KnownFields};
use crate::config::processor_configs::StandardConfig;
use crate::text::{str_eq, str_views, strs_contain};

verus! {

/// Default scan configuration of a processor type. No processor guesses
/// where its files live: the directories default to none.
#[derive(Clone, Copy)]
pub struct ScanDefaultsData {
    pub src_dirs: &'static [&'static str],
    pub src_extensions: &'static [&'static str],
    pub src_exclude_dirs: &'static [&'static str],
}

/// Per-processor default values applied to a section: an empty text or
/// list means "no default"; `batch` is left alone when `None`.
#[derive(Clone, Copy)]
pub struct ProcessorDefaults {
    pub command: &'static str,
    pub dep_auto: &'static [&'static str],
    pub output_dir: &'static str,
    pub formats: &'static [&'static str],
    pub args: &'static [&'static str],
    pub batch: Option<bool>,
}

impl Default for ProcessorDefaults {
    fn default() -> (r: Self)
        ensures
            r.command@.len() == 0,
            r.dep_auto@.len() == 0,
            r.output_dir@.len() == 0,
            r.formats@.len() == 0,
            r.args@.len() == 0,
            r.batch is None,
    {
        let r = ProcessorDefaults { command: "", dep_auto: &[], output_dir: "", formats: &[], args: &[], batch: None };
        proof {
            reveal_strlit("");
        }
        r
    }
}

/// The parameters of a simple checker processor.
#[derive(Clone, Copy)]
pub struct SimpleCheckerParams {
    /// Human-readable description.
    pub description: &'static str,
    /// Subcommand run for a check (`check` for ruff).
    pub subcommand: Option<&'static str>,
    /// Arguments put before the configured ones.
    pub prepend_args: &'static [&'static str],
    /// Tools needed besides the command.
    pub extra_tools: &'static [&'static str],
    /// Subcommand run in fix mode.
    pub fix_subcommand: Option<&'static str>,
    /// Arguments put first in fix mode; with no fix subcommand either, the
    /// processor cannot fix.
    pub fix_prepend_args: &'static [&'static str],
    /// Whether fix mode runs in batches; follows the check when `None`.
    pub fix_batch: Option<bool>,
}

/// A builtin processor type as the registry records it: its name, the
/// standard fields it does not take, its own fields, and its defaults.
#[derive(Clone, Copy)]
pub struct ProcessorPlugin {
    pub name: &'static str,
    pub omit_standard_fields: &'static [&'static str],
    pub fields: &'static [FieldSpec],
    pub scan_defaults: Option<ScanDefaultsData>,
    pub defaults: Option<ProcessorDefaults>,
}

/// The position of the first entry named `name`, from position `k` on.
pub open spec fn plugin_index(plugins: Seq<ProcessorPlugin>, name: Seq<char>, k: int) -> Option<nat>
    decreases plugins.len() - k,
{
    if k < 0 || k >= plugins.len() {
        None
    } else if plugins[k].name@ == name {
        Some(k as nat)
    } else {
        plugin_index(plugins, name, k + 1)
    }
}

/// The registry entry of a type name.
pub open spec fn registered(plugins: Seq<ProcessorPlugin>, name: Seq<char>) -> Option<ProcessorPlugin> {
    match plugin_index(plugins, name, 0) {
        Some(i) => Some(plugins[i as int]),
        None => None,
    }
}

/// The names of a list of field specs.
pub open spec fn field_names(fields: Seq<FieldSpec>) -> Seq<Seq<char>> {
    fields.map_values(|f: FieldSpec| f.name@)
}

/// `base` without the names listed in `drop`, in order.
pub open spec fn without(base: Seq<Seq<char>>, drop: Seq<Seq<char>>) -> Seq<Seq<char>>
    decreases base.len(),
{
    if base.len() == 0 {
        base
    } else {
        let rest = without(base.drop_last(), drop);
        if drop.contains(base.last()) {
            rest
        } else {
            rest.push(base.last())
        }
    }
}

/// `base` followed by each name of `extra` not listed yet.
pub open spec fn append_new(base: Seq<Seq<char>>, extra: Seq<Seq<char>>) -> Seq<Seq<char>>
    decreases extra.len(),
{
    if extra.len() == 0 {
        base
    } else {
        let rest = append_new(base, extra.drop_last());
        if rest.contains(extra.last()) {
            rest
        } else {
            rest.push(extra.last())
        }
    }
}

/// The names of the fields that change what the processor produces.
pub open spec fn output_field_names(fields: Seq<FieldSpec>) -> Seq<Seq<char>>
    decreases fields.len(),
{
    if fields.len() == 0 {
        Seq::empty()
    } else {
        let rest = output_field_names(fields.drop_last());
        if fields.last().affects_output {
            rest.push(fields.last().name@)
        } else {
            rest
        }
    }
}

/// The names of the fields that must be set.
pub open spec fn required_field_names(fields: Seq<FieldSpec>) -> Seq<Seq<char>>
    decreases fields.len(),
{
    if fields.len() == 0 {
        Seq::empty()
    } else {
        let rest = required_field_names(fields.drop_last());
        if fields.last().required {
            rest.push(fields.last().name@)
        } else {
            rest
        }
    }
}

/// The standard fields every processor takes, scan fields aside.
pub open spec fn standard_known_fields() -> Seq<Seq<char>> {
    str_views(seq!["command", "formats", "args", "dep_inputs", "dep_auto", "output_dir", "required_tools", "batch", "max_jobs"])
}

/// The standard fields that change what a processor produces.
pub open spec fn standard_checksum_fields() -> Seq<Seq<char>> {
    str_views(seq!["command", "args"])
}

/// The fields a section of this type may set, scan fields aside: the
/// standard ones it does not omit, then its own (a field of its own with a
/// standard name is listed once).
pub open spec fn known_fields_spec(p: ProcessorPlugin) -> Seq<Seq<char>> {
    append_new(without(standard_known_fields(), str_views(p.omit_standard_fields@)), field_names(p.fields@))
}

/// The fields of this type that change what it produces: the standard ones
/// it neither omits nor redeclares, then its own that say so.
pub open spec fn checksum_fields_spec(p: ProcessorPlugin) -> Seq<Seq<char>> {
    without(without(standard_checksum_fields(), str_views(p.omit_standard_fields@)), field_names(p.fields@)) + output_field_names(p.fields@)
}

/// The part of an instance name before its first `.`: the type name.
pub open spec fn type_part(name: Seq<char>) -> Seq<char> {
    if exists|i: int| 0 <= i < name.len() && name[i] == '.' {
        name.take(choose|i: int| 0 <= i < name.len() && name[i] == '.' && forall|j: int| 0 <= j < i ==> name[j] != '.')
    } else {
        name
    }
}

/// The position of the first entry named `proc_type`.
fn plugin_position(plugins: &[ProcessorPlugin], proc_type: &str) -> (r: Option<usize>)
    ensures
        r matches Some(i) ==> plugin_index(plugins@, proc_type@, 0) == Some(i as nat) && i < plugins@.len(),
        r is None ==> plugin_index(plugins@, proc_type@, 0) is None,
{
    let mut i: usize = 0;
    while i < plugins.len()
        invariant
            0 <= i <= plugins.len(),
            plugin_index(plugins@, proc_type@, 0) == plugin_index(plugins@, proc_type@, i as int),
        decreases plugins.len() - i,
    {
        if str_eq(plugins[i].name, proc_type) {
            return Some(i);
        }
        i = i + 1;
    }
    None
}

/// The registry entry of a builtin type.
pub fn find_registry_entry<'a>(plugins: &'a [ProcessorPlugin], proc_type: &str) -> (r: Option<&'a ProcessorPlugin>)
    ensures
        r is Some <==> registered(plugins@, proc_type@) is Some,
        r matches Some(p) ==> *p == registered(plugins@, proc_type@)->0,
{
    match plugin_position(plugins, proc_type) {
        Some(i) => Some(&plugins[i]),
        None => None,
    }
}

/// Every builtin type name, in registry order.
pub fn all_type_names(plugins: &[ProcessorPlugin]) -> (r: Vec<&'static str>)
    ensures
        r@ == plugins@.map_values(|p: ProcessorPlugin| p.name),
{
    let mut r: Vec<&'static str> = Vec::new();
    let mut i: usize = 0;
    while i < plugins.len()
        invariant
            0 <= i <= plugins.len(),
            r@ == plugins@.take(i as int).map_values(|p: ProcessorPlugin| p.name),
        decreases plugins.len() - i,
    {
        r.push(plugins[i].name);
        proof {
            assert(plugins@.take(i + 1) =~= plugins@.take(i as int).push(plugins@[i as int]));
        }
        i = i + 1;
    }
    proof {
        assert(plugins@.take(plugins@.len() as int) =~= plugins@);
    }
    r
}

/// Whether a name is a builtin processor type.
pub fn is_builtin_type(plugins: &[ProcessorPlugin], name: &str) -> (r: bool)
    ensures
        r == (registered(plugins@, name@) is Some),
{
    plugin_position(plugins, name).is_some()
}

/// The scan defaults of a builtin type.
pub fn scan_defaults_for(plugins: &[ProcessorPlugin], proc_type: &str) -> (r: Option<ScanDefaultsData>)
    ensures
        r == (match registered(plugins@, proc_type@) {
            Some(p) => p.scan_defaults,
            None => None,
        }),
{
    match plugin_position(plugins, proc_type) {
        Some(i) => plugins[i].scan_defaults,
        None => None,
    }
}

/// The default values of a builtin type.
pub fn processor_defaults_for(plugins: &[ProcessorPlugin], proc_type: &str) -> (r: Option<ProcessorDefaults>)
    ensures
        r == (match registered(plugins@, proc_type@) {
            Some(p) => p.defaults,
            None => None,
        }),
{
    match plugin_position(plugins, proc_type) {
        Some(i) => plugins[i].defaults,
        None => None,
    }
}

/// The names of `base` not listed in `drop`.
fn names_without(base: &Vec<&'static str>, drop: &[&str]) -> (r: Vec<&'static str>)
    ensures
        str_views(r@) == without(str_views(base@), str_views(drop@)),
{
    let mut r: Vec<&'static str> = Vec::new();
    let mut i: usize = 0;
    while i < base.len()
        invariant
            0 <= i <= base.len(),
            str_views(r@) == without(str_views(base@).take(i as int), str_views(drop@)),
        decreases base.len() - i,
    {
        proof {
            let t = str_views(base@).take(i + 1);
            assert(t.drop_last() =~= str_views(base@).take(i as int));
            assert(t.last() == base@[i as int]@);
        }
        if !strs_contain(drop, base[i]) {
            let ghost before = r@;
            r.push(base[i]);
            proof {
                assert(str_views(r@) =~= str_views(before).push(base@[i as int]@));
            }
        }
        i = i + 1;
    }
    proof {
        assert(str_views(base@).take(base@.len() as int) =~= str_views(base@));
    }
    r
}

/// The fields of a builtin type that changes what it produces, given its
/// registry entry.
fn checksum_fields_of_plugin(p: &ProcessorPlugin) -> (r: Vec<&'static str>)
    ensures
        str_views(r@) == checksum_fields_spec(*p),
{
    let standard: Vec<&'static str> = StandardConfig::checksum_fields();
    proof {
        assert(str_views(standard@) =~= standard_checksum_fields());
    }
    let kept: Vec<&'static str> = names_without(&standard, p.omit_standard_fields);
    let mut spec_names: Vec<&'static str> = Vec::new();
    let mut i: usize = 0;
    while i < p.fields.len()
        invariant
            0 <= i <= p.fields.len(),
            str_views(spec_names@) == field_names(p.fields@.take(i as int)),
        decreases p.fields.len() - i,
    {
        spec_names.push(p.fields[i].name);
        proof {
            assert(field_names(p.fields@.take(i + 1)) =~= field_names(p.fields@.take(i as int)).push(p.fields@[i as int].name@));
            assert(str_views(spec_names@) =~= field_names(p.fields@.take(i + 1)));
        }
        i = i + 1;
    }
    proof {
        assert(p.fields@.take(p.fields@.len() as int) =~= p.fields@);
    }
    let mut r: Vec<&'static str> = names_without(&kept, spec_names.as_slice());
    let ghost base = str_views(r@);
    let mut j: usize = 0;
    while j < p.fields.len()
        invariant
            0 <= j <= p.fields.len(),
            str_views(r@) == base + output_field_names(p.fields@.take(j as int)),
        decreases p.fields.len() - j,
    {
        proof {
            assert(p.fields@.take(j + 1).drop_last() =~= p.fields@.take(j as int));
        }
        if p.fields[j].affects_output {
            let ghost before = str_views(r@);
            r.push(p.fields[j].name);
            proof {
                assert(str_views(r@) =~= before.push(p.fields@[j as int].name@));
                assert(base + output_field_names(p.fields@.take(j + 1)) =~= (base + output_field_names(p.fields@.take(j as int))).push(p.fields@[j as int].name@));
            }
        }
        j = j + 1;
    }
    proof {
        assert(p.fields@.take(p.fields@.len() as int) =~= p.fields@);
    }
    r
}

/// The fields a section of a builtin type may set (scan fields aside), or
/// `None` for a type the registry does not know.
pub fn known_fields_for(plugins: &[ProcessorPlugin], proc_type: &str) -> (r: Option<Vec<&'static str>>)
    ensures
        r is Some <==> registered(plugins@, proc_type@) is Some,
        r matches Some(v) ==> str_views(v@) == known_fields_spec(registered(plugins@, proc_type@)->0),
{
    let p: &ProcessorPlugin = match find_registry_entry(plugins, proc_type) {
        Some(p) => p,
        None => {
            return None;
        },
    };
    let standard: Vec<&'static str> = StandardConfig::known_fields();
    proof {
        assert(str_views(standard@) =~= standard_known_fields());
    }
    let mut r: Vec<&'static str> = names_without(&standard, p.omit_standard_fields);
    let ghost base = str_views(r@);
    let mut i: usize = 0;
    while i < p.fields.len()
        invariant
            0 <= i <= p.fields.len(),
            str_views(r@) == append_new(base, field_names(p.fields@.take(i as int))),
        decreases p.fields.len() - i,
    {
        proof {
            let t = field_names(p.fields@.take(i + 1));
            assert(t.drop_last() =~= field_names(p.fields@.take(i as int)));
            assert(t.last() == p.fields@[i as int].name@);
        }
        if !strs_contain(r.as_slice(), p.fields[i].name) {
            let ghost before = str_views(r@);
            r.push(p.fields[i].name);
            proof {
                assert(str_views(r@) =~= before.push(p.fields@[i as int].name@));
            }
        }
        i = i + 1;
    }
    proof {
        assert(p.fields@.take(p.fields@.len() as int) =~= p.fields@);
    }
    Some(r)
}

/// The fields of a builtin type that change what it produces, or `None`
/// for a type the registry does not know.
pub fn checksum_fields_for(plugins: &[ProcessorPlugin], proc_type: &str) -> (r: Option<Vec<&'static str>>)
    ensures
        r is Some <==> registered(plugins@, proc_type@) is Some,
        r matches Some(v) ==> str_views(v@) == checksum_fields_spec(registered(plugins@, proc_type@)->0),
{
    match find_registry_entry(plugins, proc_type) {
        Some(p) => Some(checksum_fields_of_plugin(p)),
        None => None,
    }
}

/// The fields of a builtin type that must be set and not empty, or `None`
/// for a type the registry does not know.
pub fn must_fields_for(plugins: &[ProcessorPlugin], proc_type: &str) -> (r: Option<Vec<&'static str>>)
    ensures
        r is Some <==> registered(plugins@, proc_type@) is Some,
        r matches Some(v) ==> str_views(v@) == required_field_names(registered(plugins@, proc_type@)->0.fields@),
{
    let p: &ProcessorPlugin = match find_registry_entry(plugins, proc_type) {
        Some(p) => p,
        None => {
            return None;
        },
    };
    let mut r: Vec<&'static str> = Vec::new();
    let mut i: usize = 0;
    while i < p.fields.len()
        invariant
            0 <= i <= p.fields.len(),
            str_views(r@) == required_field_names(p.fields@.take(i as int)),
        decreases p.fields.len() - i,
    {
        proof {
            assert(p.fields@.take(i + 1).drop_last() =~= p.fields@.take(i as int));
        }
        if p.fields[i].required {
            let ghost before = str_views(r@);
            r.push(p.fields[i].name);
            proof {
                assert(str_views(r@) =~= before.push(p.fields@[i as int].name@));
            }
        }
        i = i + 1;
    }
    proof {
        assert(p.fields@.take(p.fields@.len() as int) =~= p.fields@);
    }
    Some(r)
}

/// The fields that change what a processor produces, by instance name
/// (`pylint.core` is read as `pylint`); none for a type the registry does
/// not know.
pub fn checksum_fields_of(plugins: &[ProcessorPlugin], name: &str) -> (r: Vec<&'static str>)
    ensures
        str_views(r@) == (match registered(plugins@, type_part(name@)) {
            Some(p) => checksum_fields_spec(p),
            None => Seq::empty(),
        }),
{
    let chars = crate::text::chars_of(name);
    let mut i: usize = 0;
    while i < chars.len() && chars[i] != '.'
        invariant
            0 <= i <= chars.len(),
            chars@ == name@,
            forall|j: int| 0 <= j < i ==> name@[j] != '.',
        decreases chars.len() - i,
    {
        i = i + 1;
    }
    let proc_type: String = crate::text::string_between(&chars, 0, i);
    proof {
        if i < chars.len() {
            assert(name@[i as int] == '.');
            let c = choose|c: int| 0 <= c < name@.len() && name@[c] == '.' && forall|j: int| 0 <= j < c ==> name@[j] != '.';
            if c < i {
                assert(name@[c] != '.');
            }
            if c > i {
                assert(name@[i as int] != '.');
            }
            assert(type_part(name@) == name@.take(i as int));
        } else {
            assert(type_part(name@) == name@);
            assert(name@.take(i as int) =~= name@);
        }
        assert(proc_type@ =~= name@.subrange(0, i as int));
    }
    match checksum_fields_for(plugins, proc_type.as_str()) {
        Some(v) => v,
        None => {
            let r: Vec<&'static str> = Vec::new();
            proof {
                assert(str_views(r@) =~= Seq::<Seq<char>>::empty());
            }
            r
        },
    }
}

/// The first entry named `name` from position `k` on exists exactly when
/// some entry from there on has that name.
proof fn lemma_plugin_index_found(plugins: Seq<ProcessorPlugin>, name: Seq<char>, k: int)
    requires
        0 <= k <= plugins.len(),
    ensures
        (plugin_index(plugins, name, k) is Some) <==> exists|j: int| k <= j < plugins.len() && #[trigger] plugins[j].name@ == name,
    decreases plugins.len() - k,
{
    if k < plugins.len() {
        lemma_plugin_index_found(plugins, name, k + 1);
        if plugins[k].name@ != name {
            assert forall|j: int| k <= j < plugins.len() && #[trigger] plugins[j].name@ == name implies k + 1 <= j by {}
        }
    }
}

/// A name is a builtin type exactly when the registry's list of type names
/// holds it; a type that has scan defaults or processor defaults is a
/// builtin type.
pub proof fn lemma_builtin_iff_listed(plugins: Seq<ProcessorPlugin>, name: Seq<char>)
    ensures
        (registered(plugins, name) is Some) <==> str_views(plugins.map_values(|p: ProcessorPlugin| p.name)).contains(name),
        (match registered(plugins, name) {
            Some(p) => p.scan_defaults,
            None => None,
        }) is Some ==> registered(plugins, name) is Some,
        (match registered(plugins, name) {
            Some(p) => p.defaults,
            None => None,
        }) is Some ==> registered(plugins, name) is Some,
{
    let names = str_views(plugins.map_values(|p: ProcessorPlugin| p.name));
    lemma_plugin_index_found(plugins, name, 0);
    if names.contains(name) {
        let j = choose|j: int| 0 <= j < names.len() && names[j] == name;
        assert(plugins[j].name@ == name);
    }
    if registered(plugins, name) is Some {
        let j = choose|j: int| 0 <= j < plugins.len() && #[trigger] plugins[j].name@ == name;
        assert(names[j] == name);
    }
}

/// A name of `without(base, drop)` is one of `base` that `drop` lacks.
proof fn lemma_without_contains(base: Seq<Seq<char>>, drop: Seq<Seq<char>>, x: Seq<char>)
    ensures
        without(base, drop).contains(x) <==> base.contains(x) && !drop.contains(x),
    decreases base.len(),
{
    if base.len() > 0 {
        lemma_without_contains(base.drop_last(), drop, x);
        let rest = without(base.drop_last(), drop);
        assert(base =~= base.drop_last().push(base.last()));
        if base.contains(x) && x != base.last() {
            let j = choose|j: int| 0 <= j < base.len() && base[j] == x;
            assert(base.drop_last()[j] == x);
        }
        if rest.push(base.last()).contains(x) && x != base.last() {
            let j = choose|j: int| 0 <= j < rest.len() + 1 && rest.push(base.last())[j] == x;
            assert(rest[j] == x);
        }
        if base.drop_last().contains(x) {
            let j = choose|j: int| 0 <= j < base.len() - 1 && base.drop_last()[j] == x;
            assert(base[j] == x);
        }
        if rest.contains(x) {
            let j = choose|j: int| 0 <= j < rest.len() && rest[j] == x;
            assert(rest.push(base.last())[j] == x);
        }
        assert(rest.push(base.last())[rest.len() as int] == base.last());
        assert(base[base.len() - 1] == base.last());
    }
}

/// A name of `append_new(base, extra)` is one of `base` or of `extra`.
proof fn lemma_append_new_contains(base: Seq<Seq<char>>, extra: Seq<Seq<char>>, x: Seq<char>)
    ensures
        append_new(base, extra).contains(x) <==> base.contains(x) || extra.contains(x),
    decreases extra.len(),
{
    if extra.len() > 0 {
        lemma_append_new_contains(base, extra.drop_last(), x);
        let rest = append_new(base, extra.drop_last());
        if extra.contains(x) && x != extra.last() {
            let j = choose|j: int| 0 <= j < extra.len() && extra[j] == x;
            assert(extra.drop_last()[j] == x);
        }
        if extra.drop_last().contains(x) {
            let j = choose|j: int| 0 <= j < extra.len() - 1 && extra.drop_last()[j] == x;
            assert(extra[j] == x);
        }
        if rest.push(extra.last()).contains(x) && x != extra.last() {
            let j = choose|j: int| 0 <= j < rest.len() + 1 && rest.push(extra.last())[j] == x;
            assert(rest[j] == x);
        }
        if rest.contains(x) {
            let j = choose|j: int| 0 <= j < rest.len() && rest[j] == x;
            assert(rest.push(extra.last())[j] == x);
        }
        assert(rest.push(extra.last())[rest.len() as int] == extra.last());
        assert(extra[extra.len() - 1] == extra.last());
    }
}

/// A field that changes the output is one of the fields.
proof fn lemma_output_fields_are_fields(fields: Seq<FieldSpec>, x: Seq<char>)
    ensures
        output_field_names(fields).contains(x) ==> field_names(fields).contains(x),
    decreases fields.len(),
{
    if fields.len() > 0 {
        lemma_output_fields_are_fields(fields.drop_last(), x);
        let rest = output_field_names(fields.drop_last());
        if output_field_names(fields).contains(x) {
            if rest.contains(x) {
                let j = choose|j: int| 0 <= j < fields.len() - 1 && field_names(fields.drop_last())[j] == x;
                assert(field_names(fields)[j] == x);
            } else {
                let j = choose|j: int| 0 <= j < rest.len() + 1 && rest.push(fields.last().name@)[j] == x;
                assert(j == rest.len());
                assert(field_names(fields)[fields.len() - 1] == x);
            }
        }
    }
}

/// The checksum fields of an instance name `type.suffix` are those of its
/// type; the fields of a type the registry lists that change what it
/// produces are all fields a section of that type may set.
pub proof fn lemma_checksum_fields_are_known(plugins: Seq<ProcessorPlugin>, t: Seq<char>, suffix: Seq<char>)
    requires
        !t.contains('.'),
    ensures
        type_part(t + seq!['.'] + suffix) == t,
        type_part(t) == t,
        registered(plugins, t) matches Some(p) ==> forall|x: Seq<char>| #[trigger] checksum_fields_spec(p).contains(x)
            ==> known_fields_spec(p).contains(x),
{
    let name = t + seq!['.'] + suffix;
    assert(name[t.len() as int] == '.');
    let c = choose|c: int| 0 <= c < name.len() && name[c] == '.' && forall|j: int| 0 <= j < c ==> name[j] != '.';
    if c < t.len() {
        assert(t[c] == name[c]);
        assert(t.contains('.'));
    }
    if c > t.len() {
        assert(name[t.len() as int] != '.');
    }
    assert(name.take(t.len() as int) =~= t);
    if exists|i: int| 0 <= i < t.len() && t[i] == '.' {
        let i = choose|i: int| 0 <= i < t.len() && t[i] == '.';
        assert(t.contains('.'));
    }
    if let Some(p) = registered(plugins, t) {
        assert forall|x: Seq<char>| #[trigger] checksum_fields_spec(p).contains(x) implies known_fields_spec(p).contains(x) by {
            let omit = str_views(p.omit_standard_fields@);
            let names = field_names(p.fields@);
            let a = without(without(standard_checksum_fields(), omit), names);
            let b = output_field_names(p.fields@);
            lemma_append_new_contains(without(standard_known_fields(), omit), names, x);
            if a.contains(x) {
                lemma_without_contains(without(standard_checksum_fields(), omit), names, x);
                lemma_without_contains(standard_checksum_fields(), omit, x);
                lemma_without_contains(standard_known_fields(), omit, x);
                let j = choose|j: int| 0 <= j < standard_checksum_fields().len() && standard_checksum_fields()[j] == x;
                if j == 0 {
                    assert(standard_known_fields()[0] == x);
                } else {
                    assert(standard_known_fields()[2] == x);
                }
            } else {
                let j = choose|j: int| 0 <= j < (a + b).len() && (a + b)[j] == x;
                assert(b[j - a.len()] == x);
                lemma_output_fields_are_fields(p.fields@, x);
            }
        }
    }
}

} // verus!
