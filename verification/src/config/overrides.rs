//! Config overrides from the command line: `--iset NAME.FIELD=VALUE` sets
//! a field of one instance, `--pset TYPE.FIELD=VALUE` of every instance of
//! a processor type.

use vstd::prelude::*;
use crate::config::{FieldSpec, FieldType, expected_field_type, expected_type, field_type_label, field_type_matches, value_kind_label};
use crate::config::instance::{ProcessorInstance, instance_wf, is_text, scan_config_fields, scan_config_fields_spec};
use crate::config::provenance::FieldProvenance;
use crate::config::registry::{ProcessorPlugin, find_registry_entry, known_fields_for, known_fields_spec, registered};
use crate::config::toml_value::{
    TomlValue, copy_value, deep_sorted, display_value, lemma_deep_sorted_table, lemma_table_entry, parse_toml, same_value, table_contains,
    table_insert, table_set, table_sorted, table_view, toml_display, toml_document,
};
use crate::config::validation::{single_processor_errors, validate_single_processor};
use crate::exit_code::{ErrorChain, RsconstructError, RsconstructExitCode, config_error};
use crate::lexical::{sorted_set, sorted_set_of};
use crate::text::{chars_of, join, join_strings, str_eq, str_views, string_between, strs, strs_contain};

verus! {

/// The position of the first `c` in `s`, from position `k` on.
pub open spec fn find_first(s: Seq<char>, c: char, k: int) -> Option<int>
    decreases s.len() - k,
{
    if k < 0 || k >= s.len() {
        None
    } else if s[k] == c {
        Some(k)
    } else {
        find_first(s, c, k + 1)
    }
}

/// The position of the last `c` among the first `k` characters of `s`.
pub open spec fn find_last(s: Seq<char>, c: char, k: int) -> Option<int>
    decreases k,
{
    if k <= 0 || k > s.len() {
        None
    } else if s[k - 1] == c {
        Some(k - 1)
    } else {
        find_last(s, c, k - 1)
    }
}

/// What an override entry splits into: the name before the last `.` of
/// the part before the first `=`, the field after that `.`, and the text
/// after the `=`; or the message for a malformed entry.
pub open spec fn override_parts(flag: Seq<char>, raw: Seq<char>) -> Result<(Seq<char>, Seq<char>, Seq<char>), Seq<char>> {
    let head = flag + " '"@ + raw + "': "@;
    match find_first(raw, '=', 0) {
        None => Err(head + "missing '=' (expected <name>.<field>=<value>)"@),
        Some(e) => {
            let lhs = raw.take(e);
            match find_last(lhs, '.', lhs.len() as int) {
                None => Err(head + "missing '.' between name and field (expected <name>.<field>=<value>)"@),
                Some(d) => if d == 0 {
                    Err(head + "empty name before '.'"@)
                } else if d + 1 == lhs.len() {
                    Err(head + "empty field between '.' and '='"@)
                } else {
                    Ok((lhs.take(d), lhs.skip(d + 1), raw.skip(e + 1)))
                },
            }
        },
    }
}

/// The value an override sets: the value of `v` in the document
/// `v = TEXT`, when the text parses so; else the text itself, as a string.
pub open spec fn override_value_is(doc: Option<TomlValue>, text: Seq<char>, v: TomlValue) -> bool {
    match doc {
        Some(TomlValue::Table(t)) => if table_view(t@).contains_key("v"@) {
            v == table_view(t@)["v"@]
        } else {
            is_text(v, text)
        },
        _ => is_text(v, text),
    }
}

/// The value an override sets, given how `v = TEXT` parsed: the value of
/// `v`, or, when the text does not parse as a value, the text as a string.
pub fn override_value(parsed: Option<TomlValue>, text: &str) -> (r: TomlValue)
    requires
        parsed matches Some(d) ==> deep_sorted(d),
    ensures
        override_value_is(parsed, text@, r),
{
    proof {
        reveal_strlit("v");
    }
    match parsed {
        Some(TomlValue::Table(mut t)) => {
            proof {
                lemma_deep_sorted_table(TomlValue::Table(t));
            }
            let ghost t0 = t@;
            let mut i: usize = 0;
            while i < t.len()
                invariant
                    0 <= i <= t.len(),
                    t@ == t0,
                    parsed matches Some(TomlValue::Table(tt)) && tt@ == t0,
                    table_sorted(t0),
                    forall|j: int| 0 <= j < i ==> #[trigger] t0[j].0@ != "v"@,
                decreases t.len() - i,
            {
                if crate::text::str_eq(t[i].0.as_str(), "v") {
                    proof {
                        lemma_table_entry(t0, i as int);
                    }
                    let (_, v) = t.remove(i);
                    return v;
                }
                i = i + 1;
            }
            proof {
                if table_view(t0).contains_key("v"@) {
                    let j = choose|j: int| 0 <= j < t0.len() && crate::config::toml_value::entry_keys_of(t0)[j] == "v"@;
                    assert(t0[j].0@ == "v"@);
                }
            }
            TomlValue::String(String::from_str(text))
        },
        _ => TomlValue::String(String::from_str(text)),
    }
}

/// The position of the first `c` in `s`.
fn first_of(s: &Vec<char>, c: char) -> (r: Option<usize>)
    ensures
        r matches Some(i) ==> find_first(s@, c, 0) == Some(i as int) && i < s@.len(),
        r is None ==> find_first(s@, c, 0) is None,
{
    let mut i: usize = 0;
    while i < s.len()
        invariant
            0 <= i <= s.len(),
            find_first(s@, c, 0) == find_first(s@, c, i as int),
        decreases s.len() - i,
    {
        if s[i] == c {
            return Some(i);
        }
        i = i + 1;
    }
    None
}

/// The position of the last `c` among the first `n` characters of `s`.
fn last_of(s: &Vec<char>, c: char, n: usize) -> (r: Option<usize>)
    requires
        n <= s.len(),
    ensures
        r matches Some(i) ==> find_last(s@, c, n as int) == Some(i as int) && i < n,
        r is None ==> find_last(s@, c, n as int) is None,
{
    let mut k: usize = n;
    while k > 0
        invariant
            0 <= k <= n,
            n <= s.len(),
            find_last(s@, c, n as int) == find_last(s@, c, k as int),
        decreases k,
    {
        if s[k - 1] == c {
            return Some(k - 1);
        }
        k = k - 1;
    }
    None
}

/// `FLAG 'RAW': ` before each message about an entry.
fn entry_head(flag: &str, raw: &str) -> (r: String)
    ensures
        r@ == flag@ + " '"@ + raw@ + "': "@,
{
    let mut m: String = String::from_str(flag);
    m.append(" '");
    m.append(raw);
    m.append("': ");
    m
}

/// Splits an override entry `NAME.FIELD=VALUE` (the name may hold dots;
/// the field is after the last one before the `=`), and reads the value:
/// as a TOML value when `v = VALUE` parses, else as a string. A missing
/// `=` or `.`, or an empty name or field, is an error.
pub fn parse_override_entry(raw: &str, flag: &str) -> (r: Result<(String, String, TomlValue), String>)
    ensures
        match override_parts(flag@, raw@) {
            Err(m) => r matches Err(x) && x@ == m,
            Ok((n, f, t)) => r matches Ok((rn, rf, v)) && rn@ == n && rf@ == f && override_value_is(toml_document("v = "@ + t), t, v),
        },
{
    let chars = chars_of(raw);
    let e: usize = match first_of(&chars, '=') {
        Some(e) => e,
        None => {
            let mut m = entry_head(flag, raw);
            m.append("missing '=' (expected <name>.<field>=<value>)");
            return Err(m);
        },
    };
    let ghost lhs = raw@.take(e as int);
    proof {
        assert forall|k: int| 0 <= k <= e implies find_last(raw@, '.', k) == find_last(lhs, '.', k) by {
            lemma_find_last_prefix(raw@, lhs, '.', k);
        }
    }
    let d: usize = match last_of(&chars, '.', e) {
        Some(d) => d,
        None => {
            let mut m = entry_head(flag, raw);
            m.append("missing '.' between name and field (expected <name>.<field>=<value>)");
            return Err(m);
        },
    };
    if d == 0 {
        let mut m = entry_head(flag, raw);
        m.append("empty name before '.'");
        return Err(m);
    }
    if d + 1 == e {
        let mut m = entry_head(flag, raw);
        m.append("empty field between '.' and '='");
        return Err(m);
    }
    let name: String = string_between(&chars, 0, d);
    let field: String = string_between(&chars, d + 1, e);
    let text: String = string_between(&chars, e + 1, chars.len());
    let mut doc: String = String::from_str("v = ");
    doc.append(text.as_str());
    let parsed: Option<TomlValue> = parse_toml(doc.as_str());
    let value: TomlValue = override_value(parsed, text.as_str());
    proof {
        assert(name@ =~= lhs.take(d as int));
        assert(field@ =~= lhs.skip(d + 1));
        assert(text@ =~= raw@.skip(e + 1));
    }
    Ok((name, field, value))
}

/// Looking for the last `c` in a prefix of `s` that holds the first `k`
/// characters gives the same answer as in `s`.
proof fn lemma_find_last_prefix(s: Seq<char>, t: Seq<char>, c: char, k: int)
    requires
        0 <= k <= t.len(),
        t.len() <= s.len(),
        forall|j: int| 0 <= j < t.len() ==> t[j] == s[j],
    ensures
        find_last(s, c, k) == find_last(t, c, k),
    decreases k,
{
    if k > 0 {
        lemma_find_last_prefix(s, t, c, k - 1);
    }
}

/// The fields an override may set on an instance of a type: its known
/// fields (none for a type the registry does not know), the scan fields,
/// and `enabled`.
pub open spec fn override_fields(plugins: Seq<ProcessorPlugin>, proc_type: Seq<char>) -> Seq<Seq<char>> {
    (match registered(plugins, proc_type) {
        Some(p) => known_fields_spec(p),
        None => Seq::empty(),
    }) + scan_config_fields_spec() + str_views(seq!["enabled"])
}

/// The field specs of a type, none for a type the registry does not know.
pub open spec fn plugin_fields(plugins: Seq<ProcessorPlugin>, proc_type: Seq<char>) -> Seq<FieldSpec> {
    match registered(plugins, proc_type) {
        Some(p) => p.fields@,
        None => Seq::empty(),
    }
}

/// The message refusing an override of `field` with `value` on instance
/// `label` of a type: an unknown field (listing the fields, sorted, each
/// once), or a value of the wrong type.
pub open spec fn override_field_error(
    plugins: Seq<ProcessorPlugin>,
    proc_type: Seq<char>,
    field: Seq<char>,
    value: TomlValue,
    label: Seq<char>,
) -> Option<Seq<char>> {
    let head = "instance '"@ + label + "' (type "@ + proc_type + "): "@;
    let all = override_fields(plugins, proc_type);
    if !all.contains(field) {
        Some(head + "unknown field '"@ + field + "' (valid fields: "@ + join(sorted_set_of(all, false), ", "@) + ")"@)
    } else {
        match expected_type(field, plugin_fields(plugins, proc_type)) {
            Some(t) => if !field_type_matches(t, value) {
                Some(head + "field '"@ + field + "' must be "@ + field_type_label(t) + ", got "@ + value_kind_label(value) + " ("@
                    + toml_display(value) + ")"@)
            } else {
                None
            },
            None => None,
        }
    }
}

/// Checks that an override sets a field the instance's type takes, to a
/// value of the field's type.
pub fn validate_override_field(
    plugins: &[ProcessorPlugin],
    proc_type: &str,
    field: &str,
    value: &TomlValue,
    instance_label: &str,
) -> (r: Result<(), String>)
    ensures
        match override_field_error(plugins@, proc_type@, field@, *value, instance_label@) {
            Some(m) => r matches Err(x) && x@ == m,
            None => r is Ok,
        },
{
    let mut all: Vec<&'static str> = match known_fields_for(plugins, proc_type) {
        Some(f) => f,
        None => Vec::new(),
    };
    let ghost k0 = str_views(all@);
    let mut scan: Vec<&'static str> = scan_config_fields();
    all.append(&mut scan);
    all.push("enabled");
    proof {
        assert(str_views(all@) =~= k0 + scan_config_fields_spec() + str_views(seq!["enabled"]));
        assert(str_views(all@) == override_fields(plugins@, proc_type@));
    }
    let mut head: String = String::from_str("instance '");
    head.append(instance_label);
    head.append("' (type ");
    head.append(proc_type);
    head.append("): ");
    if !strs_contain(all.as_slice(), field) {
        let mut names: Vec<String> = Vec::new();
        let mut q: usize = 0;
        while q < all.len()
            invariant
                0 <= q <= all.len(),
                strs(names@) == str_views(all@).take(q as int),
            decreases all.len() - q,
        {
            let ghost before = strs(names@);
            names.push(String::from_str(all[q]));
            proof {
                assert(strs(names@) =~= before.push(all@[q as int]@));
                assert(str_views(all@).take(q + 1) =~= str_views(all@).take(q as int).push(all@[q as int]@));
            }
            q = q + 1;
        }
        proof {
            assert(str_views(all@).take(all@.len() as int) =~= str_views(all@));
        }
        let sorted: Vec<String> = sorted_set(&names, false);
        let mut m: String = head;
        m.append("unknown field '");
        m.append(field);
        m.append("' (valid fields: ");
        m.append(join_strings(&sorted, ", ").as_str());
        m.append(")");
        return Err(m);
    }
    let fields: &[FieldSpec] = match find_registry_entry(plugins, proc_type) {
        Some(p) => p.fields,
        None => &[],
    };
    match expected_field_type(field, fields) {
        Some(t) => {
            if !t.matches(value) {
                let mut m: String = head;
                m.append("field '");
                m.append(field);
                m.append("' must be ");
                m.append(t.label());
                m.append(", got ");
                m.append(FieldType::describe_value(value));
                m.append(" (");
                m.append(display_value(value).as_str());
                m.append(")");
                return Err(m);
            }
            Ok(())
        },
        None => Ok(()),
    }
}

/// An override selects the instance: by type for `--pset`, by instance
/// name for `--iset`.
pub open spec fn selected(inst: ProcessorInstance, by_type: bool, name: Seq<char>) -> bool {
    if by_type {
        inst.proc_type@ == name
    } else {
        inst.instance_name@ == name
    }
}

/// Why an override cannot be applied to an instance: the field or value is
/// refused, or its config is not a table.
pub open spec fn instance_override_error(plugins: Seq<ProcessorPlugin>, inst: ProcessorInstance, field: Seq<char>, value: TomlValue) -> Option<Seq<char>> {
    match override_field_error(plugins, inst.proc_type@, field, value, inst.instance_name@) {
        Some(m) => Some(m),
        None => if inst.config_toml is Table {
            None
        } else {
            Some("instance '"@ + inst.instance_name@ + "' config is not a table (cannot apply override)"@)
        },
    }
}

/// The first selected instance, from position `k` on, that refuses the
/// override.
pub open spec fn first_refusal(
    plugins: Seq<ProcessorPlugin>,
    insts: Seq<ProcessorInstance>,
    field: Seq<char>,
    value: TomlValue,
    by_type: bool,
    name: Seq<char>,
    k: int,
) -> Option<nat>
    decreases insts.len() - k,
{
    if k < 0 || k >= insts.len() {
        None
    } else if selected(insts[k], by_type, name) && instance_override_error(plugins, insts[k], field, value) is Some {
        Some(k as nat)
    } else {
        first_refusal(plugins, insts, field, value, by_type, name, k + 1)
    }
}

/// An instance after an override: `field` set to the value, its origin
/// the command line; nothing else changed.
pub open spec fn overridden(a: ProcessorInstance, b: ProcessorInstance, field: Seq<char>, value: TomlValue) -> bool {
    &&& b.instance_name == a.instance_name
    &&& b.proc_type == a.proc_type
    &&& instance_wf(b)
    &&& a.config_toml matches TomlValue::Table(e0)
    &&& b.config_toml matches TomlValue::Table(e1)
    &&& table_view(e1@).dom() == table_view(e0@).dom().insert(field)
    &&& forall|k: Seq<char>| #[trigger] table_view(e0@).contains_key(k) && k != field ==> table_view(e1@)[k] == table_view(e0@)[k]
    &&& same_value(value, table_view(e1@)[field])
    &&& b.provenance@ == a.provenance@.insert(field, FieldProvenance::CliOverride)
}

/// The instance after the override at position `i`: overridden when
/// selected, else unchanged.
pub open spec fn override_step(a: ProcessorInstance, b: ProcessorInstance, field: Seq<char>, value: TomlValue, by_type: bool, name: Seq<char>) -> bool {
    if selected(a, by_type, name) {
        overridden(a, b, field, value)
    } else {
        b == a
    }
}

/// Sets `field` in one instance's config table, recording the command
/// line as its origin.
fn set_override(inst: &mut ProcessorInstance, field: &str, value: &TomlValue)
    requires
        instance_wf(*old(inst)),
        old(inst).config_toml is Table,
    ensures
        overridden(*old(inst), *final(inst), field@, *value),
{
    let v: TomlValue = copy_value(value);
    let ghost vv = v;
    match &mut inst.config_toml {
        TomlValue::Table(entries) => {
            if table_contains(entries, field) {
                table_set(entries, field, v);
            } else {
                table_insert(entries, String::from_str(field), v);
            }
        },
        _ => {},
    }
    inst.provenance.insert(field, FieldProvenance::CliOverride);
    proof {
        let e0 = old(inst).config_toml->Table_0;
        let e1 = inst.config_toml->Table_0;
        assert(table_view(e1@) == table_view(e0@).insert(field@, vv));
        assert(table_view(e1@).dom() =~= table_view(e0@).dom().insert(field@));
    }
}

/// Applies an override to every instance it selects (by type for
/// `--pset`, by instance name for `--iset`), in order. It is an error when
/// no instance is selected, and when a selected instance refuses it (an
/// unknown field, a value of the wrong type, a config that is not a
/// table); the instances before that one keep the override.
pub fn apply_override_to_instances(
    plugins: &[ProcessorPlugin],
    instances: &mut Vec<ProcessorInstance>,
    field: &str,
    value: &TomlValue,
    by_type: bool,
    name: &str,
) -> (r: Result<(), String>)
    requires
        forall|i: int| 0 <= i < old(instances)@.len() ==> #[trigger] instance_wf(old(instances)@[i]),
    ensures
        final(instances)@.len() == old(instances)@.len(),
        !(exists|i: int| 0 <= i < old(instances)@.len() && #[trigger] selected(old(instances)@[i], by_type, name@)) ==> (r matches Err(m)
            && m@ == "no processor instance with "@ + (if by_type {
            "pname"@
        } else {
            "iname"@
        }) + " '"@ + name@ + "'"@ && final(instances)@ == old(instances)@),
        (exists|i: int| 0 <= i < old(instances)@.len() && #[trigger] selected(old(instances)@[i], by_type, name@)) ==> match first_refusal(
            plugins@,
            old(instances)@,
            field@,
            *value,
            by_type,
            name@,
            0,
        ) {
            None => r is Ok && forall|i: int| 0 <= i < old(instances)@.len() ==> #[trigger] override_step(
                old(instances)@[i],
                final(instances)@[i],
                field@,
                *value,
                by_type,
                name@,
            ),
            Some(f) => r matches Err(m) && Some(m@) == instance_override_error(plugins@, old(instances)@[f as int], field@, *value)
                && (forall|i: int| 0 <= i < f ==> #[trigger] override_step(old(instances)@[i], final(instances)@[i], field@, *value, by_type, name@))
                && forall|i: int| f <= i < old(instances)@.len() ==> #[trigger] final(instances)@[i] == old(instances)@[i],
        },
        forall|i: int| 0 <= i < final(instances)@.len() ==> #[trigger] instance_wf(final(instances)@[i]),
        forall|i: int| 0 <= i < final(instances)@.len() ==> (#[trigger] final(instances)@[i]).instance_name == old(instances)@[i].instance_name
            && final(instances)@[i].proc_type == old(instances)@[i].proc_type,
{
    let ghost s0 = instances@;
    let mut any: bool = false;
    let mut q: usize = 0;
    while q < instances.len()
        invariant
            0 <= q <= instances.len(),
            instances@ == s0,
            any == exists|i: int| 0 <= i < q && #[trigger] selected(s0[i], by_type, name@),
        decreases instances.len() - q,
    {
        let hit: bool = if by_type {
            str_eq(instances[q].proc_type.as_str(), name)
        } else {
            str_eq(instances[q].instance_name.as_str(), name)
        };
        if hit {
            proof {
                assert(selected(s0[q as int], by_type, name@));
            }
            any = true;
        }
        q = q + 1;
    }
    if !any {
        let mut m: String = String::from_str("no processor instance with ");
        m.append(if by_type {
            "pname"
        } else {
            "iname"
        });
        m.append(" '");
        m.append(name);
        m.append("'");
        return Err(m);
    }
    let mut i: usize = 0;
    while i < instances.len()
        invariant
            0 <= i <= instances.len(),
            instances@.len() == s0.len(),
            s0 == old(instances)@,
            exists|j: int| 0 <= j < s0.len() && #[trigger] selected(s0[j], by_type, name@),
            first_refusal(plugins@, s0, field@, *value, by_type, name@, 0) == first_refusal(plugins@, s0, field@, *value, by_type, name@, i as int),
            forall|j: int| 0 <= j < i ==> #[trigger] override_step(s0[j], instances@[j], field@, *value, by_type, name@),
            forall|j: int| i <= j < s0.len() ==> #[trigger] instances@[j] == s0[j],
            forall|j: int| 0 <= j < s0.len() ==> #[trigger] instance_wf(s0[j]),
            forall|j: int| 0 <= j < i ==> #[trigger] instance_wf(instances@[j]),
            forall|j: int| 0 <= j < s0.len() ==> (#[trigger] instances@[j]).instance_name == s0[j].instance_name
                && instances@[j].proc_type == s0[j].proc_type,
        decreases instances.len() - i,
    {
        let hit: bool = if by_type {
            str_eq(instances[i].proc_type.as_str(), name)
        } else {
            str_eq(instances[i].instance_name.as_str(), name)
        };
        proof {
            assert(instances@[i as int] == s0[i as int]);
            assert(instance_wf(s0[i as int]));
        }
        if hit {
            let ptype: String = instances[i].proc_type.clone();
            match validate_override_field(plugins, ptype.as_str(), field, value, instances[i].instance_name.as_str()) {
                Err(m) => {
                    return Err(m);
                },
                Ok(()) => {},
            }
            let is_table: bool = match &instances[i].config_toml {
                TomlValue::Table(_) => true,
                _ => false,
            };
            if !is_table {
                let mut m: String = String::from_str("instance '");
                m.append(instances[i].instance_name.as_str());
                m.append("' config is not a table (cannot apply override)");
                return Err(m);
            }
            let inst: &mut ProcessorInstance = &mut instances[i];
            set_override(inst, field, value);
        }
        i = i + 1;
    }
    Ok(())
}

/// The messages for one instance after overrides: those of its section
/// when its config is a table.
pub open spec fn instance_errors_after(plugins: Seq<ProcessorPlugin>, inst: ProcessorInstance) -> Seq<Seq<char>> {
    match inst.config_toml {
        TomlValue::Table(e) => match registered(plugins, inst.proc_type@) {
            Some(p) => single_processor_errors(p, "processor."@ + inst.instance_name@, e@),
            None => Seq::empty(),
        },
        _ => Seq::empty(),
    }
}

/// The messages for all instances after overrides, in order.
pub open spec fn errors_after(plugins: Seq<ProcessorPlugin>, insts: Seq<ProcessorInstance>) -> Seq<Seq<char>>
    decreases insts.len(),
{
    if insts.len() == 0 {
        Seq::empty()
    } else {
        errors_after(plugins, insts.drop_last()) + instance_errors_after(plugins, insts.last())
    }
}

/// Checks every instance's section again once overrides are applied
/// (checks at load time ran before them, so `--iset x.max_jobs=0` would
/// otherwise get through): an error listing every message, or success.
pub fn revalidate_instances(plugins: &[ProcessorPlugin], instances: &Vec<ProcessorInstance>) -> (r: Result<(), RsconstructError>)
    requires
        forall|i: int| 0 <= i < instances@.len() ==> #[trigger] instance_wf(instances@[i]),
    ensures
        r is Ok <==> errors_after(plugins@, instances@).len() == 0,
        r matches Err(e) ==> e.exit_code == RsconstructExitCode::ConfigError && e.message@ == "Invalid config after CLI overrides:\n"@
            + join(errors_after(plugins@, instances@), "\n"@),
{
    let mut errors: Vec<String> = Vec::new();
    let mut i: usize = 0;
    proof {
        assert(strs(errors@) =~= errors_after(plugins@, instances@.take(0)));
    }
    while i < instances.len()
        invariant
            0 <= i <= instances.len(),
            forall|q: int| 0 <= q < instances@.len() ==> #[trigger] instance_wf(instances@[q]),
            strs(errors@) == errors_after(plugins@, instances@.take(i as int)),
        decreases instances.len() - i,
    {
        proof {
            let t = instances@.take(i + 1);
            assert(t.drop_last() =~= instances@.take(i as int));
            assert(t.last() == instances@[i as int]);
            assert(instance_wf(instances@[i as int]));
        }
        let ghost before = strs(errors@);
        let inst: &ProcessorInstance = &instances[i];
        match &inst.config_toml {
            TomlValue::Table(e) => {
                let mut label: String = String::from_str("processor.");
                label.append(inst.instance_name.as_str());
                validate_single_processor(plugins, inst.proc_type.as_str(), label.as_str(), e, &mut errors);
            },
            _ => {},
        }
        proof {
            assert(strs(errors@) =~= before + instance_errors_after(plugins@, instances@[i as int]));
        }
        i = i + 1;
    }
    proof {
        assert(instances@.take(instances@.len() as int) =~= instances@);
    }
    if errors.len() == 0 {
        return Ok(());
    }
    let mut m: String = String::from_str("Invalid config after CLI overrides:\n");
    m.append(join_strings(&errors, "\n").as_str());
    Err(config_error(m.as_str()))
}

/// The override entries in the order they are applied: each `--iset`
/// entry (selecting by instance name), then each `--pset` entry (selecting
/// by type), with its flag.
pub open spec fn flagged(iset: Seq<String>, pset: Seq<String>) -> Seq<(Seq<char>, Seq<char>, bool)> {
    iset.map_values(|r: String| ("--iset"@, r@, false)) + pset.map_values(|r: String| ("--pset"@, r@, true))
}

/// The entry is well formed, selects some instance, and no instance it
/// selects refuses its value.
pub open spec fn entry_applies(plugins: Seq<ProcessorPlugin>, insts: Seq<ProcessorInstance>, e: (Seq<char>, Seq<char>, bool)) -> bool {
    match override_parts(e.0, e.1) {
        Err(_) => false,
        Ok((n, f, t)) => (exists|i: int| 0 <= i < insts.len() && #[trigger] selected(insts[i], e.2, n)) && forall|v: TomlValue|
            override_value_is(toml_document("v = "@ + t), t, v) ==> #[trigger] first_refusal(plugins, insts, f, v, e.2, n, 0) is None,
    }
}

/// `b` is `a` with the entry applied: its value set in every instance it
/// selects, the others unchanged.
pub open spec fn entry_step(a: Seq<ProcessorInstance>, b: Seq<ProcessorInstance>, e: (Seq<char>, Seq<char>, bool)) -> bool {
    match override_parts(e.0, e.1) {
        Err(_) => false,
        Ok((n, f, t)) => exists|v: TomlValue|
            #![trigger override_value_is(toml_document("v = "@ + t), t, v)]
            override_value_is(toml_document("v = "@ + t), t, v) && a.len() == b.len() && forall|i: int|
                0 <= i < a.len() ==> #[trigger] override_step(a[i], b[i], f, v, e.2, n),
    }
}

/// `states` goes from one set of instances to the next through the entries,
/// one entry at a time.
pub open spec fn applied_in_turn(states: Seq<Seq<ProcessorInstance>>, es: Seq<(Seq<char>, Seq<char>, bool)>) -> bool {
    states.len() == es.len() + 1 && forall|k: int| 0 <= k < es.len() ==> #[trigger] entry_step(states[k], states[k + 1], es[k])
}

/// The instances agree on what an override reads of them: names, types,
/// and whether the config is a table.
pub open spec fn same_shape(a: Seq<ProcessorInstance>, b: Seq<ProcessorInstance>) -> bool {
    a.len() == b.len() && forall|i: int|
        0 <= i < a.len() ==> (#[trigger] a[i]).instance_name == b[i].instance_name && a[i].proc_type == b[i].proc_type && (a[i].config_toml is Table
            <==> b[i].config_toml is Table)
}

/// Which instance first refuses an override reads only names, types and
/// whether the config is a table.
proof fn lemma_refusal_same_shape(
    plugins: Seq<ProcessorPlugin>,
    a: Seq<ProcessorInstance>,
    b: Seq<ProcessorInstance>,
    f: Seq<char>,
    v: TomlValue,
    by_type: bool,
    n: Seq<char>,
    k: int,
)
    requires
        same_shape(a, b),
    ensures
        first_refusal(plugins, a, f, v, by_type, n, k) == first_refusal(plugins, b, f, v, by_type, n, k),
        (exists|i: int| 0 <= i < a.len() && #[trigger] selected(a[i], by_type, n)) <==> (exists|i: int|
            0 <= i < b.len() && #[trigger] selected(b[i], by_type, n)),
    decreases a.len() - k,
{
    if 0 <= k < a.len() {
        assert(a[k].instance_name == b[k].instance_name);
        lemma_refusal_same_shape(plugins, a, b, f, v, by_type, n, k + 1);
    }
    assert((exists|i: int| 0 <= i < a.len() && #[trigger] selected(a[i], by_type, n)) ==> (exists|i: int|
        0 <= i < b.len() && #[trigger] selected(b[i], by_type, n))) by {
        if exists|i: int| 0 <= i < a.len() && #[trigger] selected(a[i], by_type, n) {
            let i = choose|i: int| 0 <= i < a.len() && #[trigger] selected(a[i], by_type, n);
            assert(selected(b[i], by_type, n));
        }
    }
    assert((exists|i: int| 0 <= i < b.len() && #[trigger] selected(b[i], by_type, n)) ==> (exists|i: int|
        0 <= i < a.len() && #[trigger] selected(a[i], by_type, n))) by {
        if exists|i: int| 0 <= i < b.len() && #[trigger] selected(b[i], by_type, n) {
            let i = choose|i: int| 0 <= i < b.len() && #[trigger] selected(b[i], by_type, n);
            assert(selected(a[i], by_type, n));
        }
    }
}

/// Two readings of one value text are refused by the same instances: they
/// are one value, or both strings.
proof fn lemma_refusal_same_value(
    plugins: Seq<ProcessorPlugin>,
    insts: Seq<ProcessorInstance>,
    f: Seq<char>,
    v1: TomlValue,
    v2: TomlValue,
    by_type: bool,
    n: Seq<char>,
    k: int,
)
    requires
        v1 == v2 || (v1 is String && v2 is String),
    ensures
        first_refusal(plugins, insts, f, v1, by_type, n, k) == first_refusal(plugins, insts, f, v2, by_type, n, k),
    decreases insts.len() - k,
{
    if 0 <= k < insts.len() {
        lemma_refusal_same_value(plugins, insts, f, v1, v2, by_type, n, k + 1);
    }
}

/// Any two values an override text reads as are one value, or both
/// strings.
proof fn lemma_override_values(doc: Option<TomlValue>, t: Seq<char>, v1: TomlValue, v2: TomlValue)
    requires
        override_value_is(doc, t, v1),
        override_value_is(doc, t, v2),
    ensures
        v1 == v2 || (v1 is String && v2 is String),
{
}

/// Applies the `--iset` entries, then the `--pset` entries, in order, and
/// checks the instances again. It succeeds exactly when every entry is
/// well formed, selects some instance and is refused by none of them, and
/// the instances then pass the checks; the instances have then gone
/// through the entries one after the other. A malformed entry or a
/// refused override is an untyped error with its message; a failed check
/// is a config error listing the messages. (The checks that look at the
/// disk, and the `src_dirs` rule, come next, from the caller.)
pub fn apply_overrides(
    plugins: &[ProcessorPlugin],
    instances: &mut Vec<ProcessorInstance>,
    iset: &Vec<String>,
    pset: &Vec<String>,
) -> (r: Result<(), ErrorChain>)
    requires
        forall|i: int| 0 <= i < old(instances)@.len() ==> #[trigger] instance_wf(old(instances)@[i]),
    ensures
        final(instances)@.len() == old(instances)@.len(),
        forall|i: int| 0 <= i < final(instances)@.len() ==> #[trigger] instance_wf(final(instances)@[i]),
        forall|i: int| 0 <= i < final(instances)@.len() ==> (#[trigger] final(instances)@[i]).instance_name
            == old(instances)@[i].instance_name && final(instances)@[i].proc_type == old(instances)@[i].proc_type,
        (exists|k: int| 0 <= k < iset@.len() && #[trigger] override_parts("--iset"@, iset@[k]@) is Err) ==> r is Err,
        (exists|k: int| 0 <= k < pset@.len() && #[trigger] override_parts("--pset"@, pset@[k]@) is Err) ==> r is Err,
        r is Ok <==> (forall|k: int| 0 <= k < flagged(iset@, pset@).len() ==> #[trigger] entry_applies(
            plugins@,
            old(instances)@,
            flagged(iset@, pset@)[k],
        )) && errors_after(plugins@, final(instances)@).len() == 0,
        r is Ok ==> exists|states: Seq<Seq<ProcessorInstance>>|
            #![trigger applied_in_turn(states, flagged(iset@, pset@))]
            applied_in_turn(states, flagged(iset@, pset@)) && states[0] == old(instances)@ && states.last() == final(instances)@,
        r matches Err(c) ==> c.links@.len() == 1,
        r is Err && (forall|k: int| 0 <= k < flagged(iset@, pset@).len() ==> #[trigger] entry_applies(
            plugins@,
            old(instances)@,
            flagged(iset@, pset@)[k],
        )) ==> r->Err_0.links@[0] is Typed && r->Err_0.links@[0]->Typed_0.exit_code == RsconstructExitCode::ConfigError
            && r->Err_0.links@[0]->Typed_0.message@ == "Invalid config after CLI overrides:\n"@ + join(
            errors_after(plugins@, final(instances)@),
            "\n"@,
        ),
        r is Err && !(forall|k: int| 0 <= k < flagged(iset@, pset@).len() ==> #[trigger] entry_applies(
            plugins@,
            old(instances)@,
            flagged(iset@, pset@)[k],
        )) ==> r->Err_0.links@[0] is Message,
{
    let ghost s0 = instances@;
    let ghost es = flagged(iset@, pset@);
    let ghost mut states: Seq<Seq<ProcessorInstance>> = seq![s0];
    proof {
        reveal_strlit("--iset");
        reveal_strlit("--pset");
        assert(es.len() == iset@.len() + pset@.len());
        assert forall|q: int| 0 <= q < iset@.len() implies #[trigger] es[q] == ("--iset"@, iset@[q]@, false) by {}
        assert forall|q: int| 0 <= q < pset@.len() implies #[trigger] es[iset@.len() + q] == ("--pset"@, pset@[q]@, true) by {}
        assert(same_shape(s0, instances@));
    }
    let mut k: usize = 0;
    while k < iset.len()
        invariant
            0 <= k <= iset.len(),
            es == flagged(iset@, pset@),
            es.len() == iset@.len() + pset@.len(),
            s0 == old(instances)@,
            forall|q: int| 0 <= q < iset@.len() ==> #[trigger] es[q] == ("--iset"@, iset@[q]@, false),
            instances@.len() == s0.len(),
            forall|i: int| 0 <= i < instances@.len() ==> #[trigger] instance_wf(instances@[i]),
            same_shape(s0, instances@),
            states.len() == k + 1,
            states[0] == s0,
            states.last() == instances@,
            forall|j: int| 0 <= j < k ==> #[trigger] entry_step(states[j], states[j + 1], es[j]),
            forall|j: int| 0 <= j < k ==> #[trigger] entry_applies(plugins@, s0, es[j]),
        decreases iset.len() - k,
    {
        let ghost before = instances@;
        proof {
            assert(es[k as int] == ("--iset"@, iset@[k as int]@, false));
        }
        match apply_entry(plugins, instances, iset[k].as_str(), "--iset", false, Ghost(s0)) {
            Ok(()) => {},
            Err(m) => {
                return Err(ErrorChain::message(m.as_str()));
            },
        }
        proof {
            let s1 = states.push(instances@);
            assert forall|j: int| 0 <= j < k + 1 implies #[trigger] entry_step(s1[j], s1[j + 1], es[j]) by {
                if j < k {
                    assert(s1[j] == states[j] && s1[j + 1] == states[j + 1]);
                } else {
                    assert(s1[j] == before && s1[j + 1] == instances@);
                }
            }
            states = s1;
        }
        k = k + 1;
    }
    let mut k2: usize = 0;
    while k2 < pset.len()
        invariant
            0 <= k2 <= pset.len(),
            es == flagged(iset@, pset@),
            es.len() == iset@.len() + pset@.len(),
            s0 == old(instances)@,
            forall|q: int| 0 <= q < iset@.len() ==> #[trigger] es[q] == ("--iset"@, iset@[q]@, false),
            forall|q: int| 0 <= q < pset@.len() ==> #[trigger] es[iset@.len() + q] == ("--pset"@, pset@[q]@, true),
            instances@.len() == s0.len(),
            forall|i: int| 0 <= i < instances@.len() ==> #[trigger] instance_wf(instances@[i]),
            same_shape(s0, instances@),
            states.len() == iset@.len() + k2 + 1,
            states[0] == s0,
            states.last() == instances@,
            forall|j: int| 0 <= j < iset@.len() + k2 ==> #[trigger] entry_step(states[j], states[j + 1], es[j]),
            forall|j: int| 0 <= j < iset@.len() + k2 ==> #[trigger] entry_applies(plugins@, s0, es[j]),
        decreases pset.len() - k2,
    {
        let ghost before = instances@;
        let ghost at = iset@.len() + k2;
        proof {
            assert(es[at] == ("--pset"@, pset@[k2 as int]@, true));
        }
        match apply_entry(plugins, instances, pset[k2].as_str(), "--pset", true, Ghost(s0)) {
            Ok(()) => {},
            Err(m) => {
                return Err(ErrorChain::message(m.as_str()));
            },
        }
        proof {
            let s1 = states.push(instances@);
            assert forall|j: int| 0 <= j < at + 1 implies #[trigger] entry_step(s1[j], s1[j + 1], es[j]) by {
                if j < at {
                    assert(s1[j] == states[j] && s1[j + 1] == states[j + 1]);
                } else {
                    assert(s1[j] == before && s1[j + 1] == instances@);
                }
            }
            states = s1;
        }
        k2 = k2 + 1;
    }
    proof {
        assert(applied_in_turn(states, es));
        assert forall|q: int| 0 <= q < iset@.len() implies #[trigger] override_parts("--iset"@, iset@[q]@) is Ok by {
            assert(entry_applies(plugins@, s0, es[q]));
        }
        assert forall|q: int| 0 <= q < pset@.len() implies #[trigger] override_parts("--pset"@, pset@[q]@) is Ok by {
            assert(entry_applies(plugins@, s0, es[iset@.len() + q]));
        }
        assert forall|i: int| 0 <= i < instances@.len() implies (#[trigger] instances@[i]).instance_name == s0[i].instance_name
            && instances@[i].proc_type == s0[i].proc_type by {
            assert(s0[i].instance_name == instances@[i].instance_name);
        }
    }
    match revalidate_instances(plugins, instances) {
        Ok(()) => Ok(()),
        Err(e) => Err(ErrorChain::from_error(e)),
    }
}

/// Applies one override entry, given with its flag and whether it selects
/// by type: `Ok` exactly when the entry applies (read against instances of
/// the same shape as `s0`), the instances then having gone through it;
/// else the message, an entry that is malformed or refused.
fn apply_entry(
    plugins: &[ProcessorPlugin],
    instances: &mut Vec<ProcessorInstance>,
    raw: &str,
    flag: &str,
    by_type: bool,
    Ghost(s0): Ghost<Seq<ProcessorInstance>>,
) -> (r: Result<(), String>)
    requires
        forall|i: int| 0 <= i < old(instances)@.len() ==> #[trigger] instance_wf(old(instances)@[i]),
        same_shape(s0, old(instances)@),
    ensures
        final(instances)@.len() == old(instances)@.len(),
        forall|i: int| 0 <= i < final(instances)@.len() ==> #[trigger] instance_wf(final(instances)@[i]),
        forall|i: int| 0 <= i < final(instances)@.len() ==> (#[trigger] final(instances)@[i]).instance_name == old(instances)@[i].instance_name
            && final(instances)@[i].proc_type == old(instances)@[i].proc_type,
        r is Ok <==> entry_applies(plugins@, s0, (flag@, raw@, by_type)),
        r is Ok ==> entry_step(old(instances)@, final(instances)@, (flag@, raw@, by_type)) && same_shape(s0, final(instances)@),
{
    let ghost e = (flag@, raw@, by_type);
    let (name, field, value) = match parse_override_entry(raw, flag) {
        Ok(x) => x,
        Err(m) => {
            return Err(m);
        },
    };
    let ghost before = instances@;
    let ghost t = override_parts(flag@, raw@)->Ok_0.2;
    proof {
        lemma_refusal_same_shape(plugins@, s0, before, field@, value, by_type, name@, 0);
    }
    match apply_override_to_instances(plugins, instances, field.as_str(), &value, by_type, name.as_str()) {
        Ok(()) => {},
        Err(m) => {
            proof {
                if entry_applies(plugins@, s0, e) {
                    assert(first_refusal(plugins@, s0, field@, value, by_type, name@, 0) is None);
                }
            }
            return Err(m);
        },
    }
    proof {
        assert forall|v: TomlValue| override_value_is(toml_document("v = "@ + t), t, v) implies #[trigger] first_refusal(
            plugins@,
            s0,
            field@,
            v,
            by_type,
            name@,
            0,
        ) is None by {
            lemma_override_values(toml_document("v = "@ + t), t, value, v);
            lemma_refusal_same_value(plugins@, s0, field@, value, v, by_type, name@, 0);
        }
        assert(entry_applies(plugins@, s0, e));
        assert(entry_step(before, instances@, e));
        assert forall|i: int| 0 <= i < s0.len() implies (#[trigger] s0[i]).instance_name == instances@[i].instance_name
            && s0[i].proc_type == instances@[i].proc_type && (s0[i].config_toml is Table <==> instances@[i].config_toml
            is Table) by {
            assert(override_step(before[i], instances@[i], field@, value, by_type, name@));
            assert(s0[i].config_toml is Table <==> before[i].config_toml is Table);
        }
    }
    Ok(())
}

} // verus!
