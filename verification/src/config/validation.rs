//! Checks of the `[processor]` and `[analyzer]` sections of the project
//! file, made before any processor is built, with the messages shown for
//! each mistake.

use vstd::prelude::*;
use crate::config::{FieldType, expected_field_type, expected_type, field_type_label, field_type_matches, value_kind_label};
use crate::config::{BuildConfig, SectionShape};
use crate::config::instance::{ProcessorInstance, config_field, instance_wf, is_text};
use crate::config::provenance::{FieldProvenance, provenance_text};
use crate::exit_code::{RsconstructError, RsconstructExitCode, config_error};
use crate::config::instance::{ProcessorConfig, all_tables, keys_in, section_field_list, section_fields, section_fields_of, shape_is};
use crate::config::registry::{ProcessorPlugin, find_registry_entry, must_fields_for, registered, required_field_names};
use crate::config::toml_value::{TomlValue, display_value, table_get, table_sorted, table_view, toml_display};
use crate::text::{join, join_strings, str_views, strs, strs_contain};

verus! {

/// `[LABEL]: ` before each message about a section.
pub open spec fn section_prefix(label: Seq<char>) -> Seq<char> {
    "["@ + label + "]: "@
}

/// The message for `max_jobs = 0`, which would never let a job run.
pub open spec fn max_jobs_errors(label: Seq<char>, e: Seq<(String, TomlValue)>) -> Seq<Seq<char>> {
    if table_view(e).contains_key("max_jobs"@) && table_view(e)["max_jobs"@] == TomlValue::Integer(0) {
        seq![section_prefix(label) + "'max_jobs' must be greater than 0 (use 'enabled = false' to turn the processor off)"@]
    } else {
        Seq::empty()
    }
}

/// The message for one field of a section: an unknown field, listing the
/// fields the type takes, or a value of the wrong type.
pub open spec fn field_error(p: ProcessorPlugin, label: Seq<char>, key: Seq<char>, v: TomlValue) -> Seq<Seq<char>> {
    if !section_fields(p).contains(key) {
        seq![section_prefix(label) + "unknown field '"@ + key + "' (valid fields: "@ + join(section_fields(p), ", "@) + ")"@]
    } else {
        match expected_type(key, p.fields@) {
            Some(t) => if !field_type_matches(t, v) {
                seq![
                    section_prefix(label) + "field '"@ + key + "' must be "@ + field_type_label(t) + ", got "@ + value_kind_label(v) + " ("@
                        + toml_display(v) + ")"@,
                ]
            } else {
                Seq::empty()
            },
            None => Seq::empty(),
        }
    }
}

/// The messages for the fields of a section, in order.
pub open spec fn field_errors(p: ProcessorPlugin, label: Seq<char>, e: Seq<(String, TomlValue)>) -> Seq<Seq<char>>
    decreases e.len(),
{
    if e.len() == 0 {
        Seq::empty()
    } else {
        field_errors(p, label, e.drop_last()) + field_error(p, label, e.last().0@, e.last().1)
    }
}

/// The message for a field that must be set: missing, or an empty string
/// or array.
pub open spec fn must_error(label: Seq<char>, field: Seq<char>, t: Map<Seq<char>, TomlValue>) -> Seq<Seq<char>> {
    if !t.contains_key(field) {
        seq![section_prefix(label) + "required field '"@ + field + "' must be specified"@]
    } else if (t[field] matches TomlValue::Array(a) && a@.len() == 0) || (t[field] matches TomlValue::String(x) && x@.len() == 0) {
        seq![section_prefix(label) + "required field '"@ + field + "' must not be empty"@]
    } else {
        Seq::empty()
    }
}

/// The messages for the fields that must be set, in order.
pub open spec fn must_errors(label: Seq<char>, fields: Seq<Seq<char>>, t: Map<Seq<char>, TomlValue>) -> Seq<Seq<char>>
    decreases fields.len(),
{
    if fields.len() == 0 {
        Seq::empty()
    } else {
        must_errors(label, fields.drop_last(), t) + must_error(label, fields.last(), t)
    }
}

/// The messages for one section of a builtin type: `max_jobs = 0`, then
/// each field, then each field that must be set.
pub open spec fn single_processor_errors(p: ProcessorPlugin, label: Seq<char>, e: Seq<(String, TomlValue)>) -> Seq<Seq<char>> {
    max_jobs_errors(label, e) + field_errors(p, label, e) + must_errors(label, required_field_names(p.fields@), table_view(e))
}

/// `[LABEL]: ` followed by `text`.
pub(crate) fn prefixed(label: &str, text: &str) -> (r: String)
    ensures
        r@ == section_prefix(label@) + text@,
{
    let mut m: String = String::from_str("[");
    m.append(label);
    m.append("]: ");
    m.append(text);
    proof {
        reveal_strlit("[");
        reveal_strlit("]: ");
        assert(m@ =~= section_prefix(label@) + text@);
    }
    m
}

/// The message for one field of a section of a builtin type.
fn check_field(p: &ProcessorPlugin, all_fields: &Vec<&'static str>, joined: &String, label: &str, key: &str, v: &TomlValue) -> (r: Option<String>)
    requires
        str_views(all_fields@) == section_fields(*p),
        joined@ == join(section_fields(*p), ", "@),
    ensures
        r matches Some(m) ==> field_error(*p, label@, key@, *v) == seq![m@],
        r is None ==> field_error(*p, label@, key@, *v) == Seq::<Seq<char>>::empty(),
{
    if !strs_contain(all_fields.as_slice(), key) {
        let mut m: String = prefixed(label, "unknown field '");
        m.append(key);
        m.append("' (valid fields: ");
        m.append(joined.as_str());
        m.append(")");
        proof {
            assert(m@ =~= section_prefix(label@) + "unknown field '"@ + key@ + "' (valid fields: "@ + join(section_fields(*p), ", "@) + ")"@);
        }
        return Some(m);
    }
    match expected_field_type(key, p.fields) {
        Some(t) => {
            if !t.matches(v) {
                let mut m: String = prefixed(label, "field '");
                m.append(key);
                m.append("' must be ");
                m.append(t.label());
                m.append(", got ");
                m.append(FieldType::describe_value(v));
                m.append(" (");
                m.append(display_value(v).as_str());
                m.append(")");
                proof {
                    assert(m@ =~= section_prefix(label@) + "field '"@ + key@ + "' must be "@ + field_type_label(t) + ", got "@
                        + value_kind_label(*v) + " ("@ + toml_display(*v) + ")"@);
                }
                Some(m)
            } else {
                None
            }
        },
        None => None,
    }
}

/// Checks one section of a processor type against what the registry
/// records of the type, adding a message for each mistake: `max_jobs = 0`,
/// an unknown field, a value of the wrong type, a required field missing
/// or empty. A type the registry does not know is not checked.
pub fn validate_single_processor(
    plugins: &[ProcessorPlugin],
    proc_type: &str,
    section_label: &str,
    table: &Vec<(String, TomlValue)>,
    errors: &mut Vec<String>,
)
    requires
        table_sorted(table@),
    ensures
        strs(final(errors)@) == strs(old(errors)@) + match registered(plugins@, proc_type@) {
            Some(p) => single_processor_errors(p, section_label@, table@),
            None => Seq::empty(),
        },
{
    let p: &ProcessorPlugin = match find_registry_entry(plugins, proc_type) {
        Some(p) => p,
        None => {
            proof {
                assert(strs(errors@) =~= strs(errors@) + Seq::<Seq<char>>::empty());
            }
            return;
        },
    };
    let ghost e0 = strs(errors@);
    let ghost pp = *p;
    let all_fields: Vec<&'static str> = match section_field_list(plugins, proc_type) {
        Some(f) => f,
        None => {
            return;
        },
    };
    let mut names: Vec<String> = Vec::new();
    let mut q: usize = 0;
    while q < all_fields.len()
        invariant
            0 <= q <= all_fields.len(),
            strs(names@) == str_views(all_fields@).take(q as int),
        decreases all_fields.len() - q,
    {
        let ghost before = strs(names@);
        let name: String = String::from_str(all_fields[q]);
        names.push(name);
        proof {
            assert(strs(names@) =~= before.push(all_fields@[q as int]@));
            assert(str_views(all_fields@).take(q + 1) =~= str_views(all_fields@).take(q as int).push(all_fields@[q as int]@));
        }
        q = q + 1;
    }
    proof {
        assert(str_views(all_fields@).take(all_fields@.len() as int) =~= str_views(all_fields@));
    }
    let joined: String = join_strings(&names, ", ");
    match table_get(table, "max_jobs") {
        Some(TomlValue::Integer(n)) => {
            if *n == 0 {
                let m: String = prefixed(section_label, "'max_jobs' must be greater than 0 (use 'enabled = false' to turn the processor off)");
                errors.push(m);
            }
        },
        _ => {},
    }
    proof {
        assert(strs(errors@) =~= e0 + max_jobs_errors(section_label@, table@));
    }
    let ghost e1 = strs(errors@);
    let mut i: usize = 0;
    while i < table.len()
        invariant
            0 <= i <= table.len(),
            pp == *p,
            str_views(all_fields@) == section_fields(pp),
            joined@ == join(section_fields(pp), ", "@),
            strs(errors@) == e1 + field_errors(pp, section_label@, table@.take(i as int)),
        decreases table.len() - i,
    {
        proof {
            let t = table@.take(i + 1);
            assert(t.drop_last() =~= table@.take(i as int));
            assert(t.last() == table@[i as int]);
        }
        let ghost before = strs(errors@);
        match check_field(p, &all_fields, &joined, section_label, table[i].0.as_str(), &table[i].1) {
            Some(m) => {
                errors.push(m);
                proof {
                    assert(strs(errors@) =~= before + field_error(pp, section_label@, table@[i as int].0@, table@[i as int].1));
                }
            },
            None => {
                proof {
                    assert(strs(errors@) =~= before + field_error(pp, section_label@, table@[i as int].0@, table@[i as int].1));
                }
            },
        }
        proof {
            assert(strs(errors@) =~= e1 + field_errors(pp, section_label@, table@.take(i + 1)));
        }
        i = i + 1;
    }
    proof {
        assert(table@.take(table@.len() as int) =~= table@);
    }
    let ghost e2 = strs(errors@);
    let must: Vec<&'static str> = match must_fields_for(plugins, proc_type) {
        Some(m) => m,
        None => {
            return;
        },
    };
    let mut j: usize = 0;
    while j < must.len()
        invariant
            0 <= j <= must.len(),
            table_sorted(table@),
            strs(errors@) == e2 + must_errors(section_label@, str_views(must@).take(j as int), table_view(table@)),
        decreases must.len() - j,
    {
        proof {
            let t = str_views(must@).take(j + 1);
            assert(t.drop_last() =~= str_views(must@).take(j as int));
            assert(t.last() == must@[j as int]@);
        }
        let ghost before = strs(errors@);
        let field: &str = must[j];
        match table_get(table, field) {
            None => {
                let mut m: String = prefixed(section_label, "required field '");
                m.append(field);
                m.append("' must be specified");
                errors.push(m);
            },
            Some(v) => {
                let empty: bool = match v {
                    TomlValue::Array(a) => a.len() == 0,
                    TomlValue::String(x) => x.as_str().is_empty(),
                    _ => false,
                };
                if empty {
                    let mut m: String = prefixed(section_label, "required field '");
                    m.append(field);
                    m.append("' must not be empty");
                    errors.push(m);
                }
            },
        }
        proof {
            assert(strs(errors@) =~= before + must_error(section_label@, must@[j as int]@, table_view(table@)));
            assert(strs(errors@) =~= e2 + must_errors(section_label@, str_views(must@).take(j + 1), table_view(table@)));
        }
        j = j + 1;
    }
    proof {
        assert(str_views(must@).take(must@.len() as int) =~= str_views(must@));
        assert(strs(errors@) =~= e0 + single_processor_errors(pp, section_label@, table@));
    }
}

/// `Path::join`: `file` after `dir`, with one `/` between them; an
/// absolute `file` stands alone, and an empty `dir` adds nothing.
pub open spec fn path_join(dir: Seq<char>, file: Seq<char>) -> Seq<char> {
    if file.len() > 0 && file[0] == '/' {
        file
    } else if dir.len() == 0 {
        file
    } else if dir.last() == '/' {
        dir + file
    } else {
        dir + "/"@ + file
    }
}

/// `dir` joined with `file`, as `Path::join` does it.
pub fn join_path(dir: &str, file: &str) -> (r: String)
    ensures
        r@ == path_join(dir@, file@),
{
    proof {
        reveal_strlit("/");
    }
    let f = crate::text::chars_of(file);
    if f.len() > 0 && f[0] == '/' {
        return String::from_str(file);
    }
    let d = crate::text::chars_of(dir);
    if d.len() == 0 {
        return String::from_str(file);
    }
    let mut r: String = String::from_str(dir);
    if d[d.len() - 1] != '/' {
        r.append("/");
    }
    r.append(file);
    r
}

/// The directory Lua plugins are looked for in: `[plugins] dir`, when it
/// is a string, else `plugins`.
pub open spec fn plugins_dir(top: Map<Seq<char>, TomlValue>) -> Seq<char> {
    if top.contains_key("plugins"@) {
        match top["plugins"@] {
            TomlValue::Table(p) => if table_view(p@).contains_key("dir"@) {
                match table_view(p@)["dir"@] {
                    TomlValue::String(d) => d@,
                    _ => "plugins"@,
                }
            } else {
                "plugins"@
            },
            _ => "plugins"@,
        }
    } else {
        "plugins"@
    }
}

/// How colliding keys are listed: each quoted, comma-separated.
pub open spec fn quoted_list(keys: Seq<Seq<char>>) -> Seq<char> {
    join(keys.map_values(|k: Seq<char>| "'"@ + k + "'"@), ", "@)
}

/// The message for a section that reads both as config and as named
/// instances.
pub open spec fn ambiguous_message(name: Seq<char>, colliding: Seq<Seq<char>>) -> Seq<char> {
    let one = colliding.len() == 1;
    "[processor."@ + name + "]: ambiguous section \u{2014} "@ + quoted_list(colliding) + " also "@ + (if one {
        "names"@
    } else {
        "name"@
    }) + " a config field of '"@ + name + "', so this could be read either as config or as named instance"@ + (if one {
        ""@
    } else {
        "s"@
    }) + ". Rename the instance"@ + (if one {
        ""@
    } else {
        "s"@
    }) + ", or move the config fields to [processor."@ + name + "] and keep only instances as sub-tables."@
}

/// The messages for the named instances of a section, in order.
pub open spec fn instance_errors(p: ProcessorPlugin, name: Seq<char>, sub: Seq<(String, TomlValue)>) -> Seq<Seq<char>>
    decreases sub.len(),
{
    if sub.len() == 0 {
        Seq::empty()
    } else {
        instance_errors(p, name, sub.drop_last()) + match sub.last().1 {
            TomlValue::Table(t) => single_processor_errors(p, "processor."@ + name + "."@ + sub.last().0@, t@),
            _ => Seq::empty(),
        }
    }
}

/// The messages for one entry of the `[processor]` table: a value that is
/// not a section; a type that is neither builtin nor a Lua plugin found
/// on disk (`present` lists the names whose plugin file exists); an
/// ambiguous section; else the messages of its instance or instances.
pub open spec fn section_errors(
    plugins: Seq<ProcessorPlugin>,
    dir: Seq<char>,
    present: Seq<Seq<char>>,
    name: Seq<char>,
    value: TomlValue,
) -> Seq<Seq<char>> {
    match value {
        TomlValue::Table(t) => match registered(plugins, name) {
            None => if present.contains(name) {
                Seq::empty()
            } else {
                seq![
                    "[processor."@ + name + "]: unknown processor type '"@ + name + "' (not a builtin processor or Lua plugin at "@
                        + path_join(dir, name + ".lua"@) + ")"@,
                ]
            },
            Some(p) => if t@.len() == 0 || !all_tables(t@) {
                single_processor_errors(p, "processor."@ + name, t@)
            } else if keys_in(t@, section_fields(p)).len() == 0 {
                instance_errors(p, name, t@)
            } else {
                seq![ambiguous_message(name, keys_in(t@, section_fields(p)))]
            },
        },
        _ => seq!["[processor]: '"@ + name + "' must be a section (e.g. [processor."@ + name + "]), got "@ + value_kind_label(value)],
    }
}

/// The messages for the entries of the `[processor]` table, in order.
pub open spec fn processor_table_errors(
    plugins: Seq<ProcessorPlugin>,
    dir: Seq<char>,
    present: Seq<Seq<char>>,
    e: Seq<(String, TomlValue)>,
) -> Seq<Seq<char>>
    decreases e.len(),
{
    if e.len() == 0 {
        Seq::empty()
    } else {
        processor_table_errors(plugins, dir, present, e.drop_last()) + section_errors(plugins, dir, present, e.last().0@, e.last().1)
    }
}

/// The project file's tables have their keys in order: the file, its
/// `[plugins]` and `[processor]` tables, and the sections and instances
/// under `[processor]`.
pub open spec fn raw_sorted(raw: TomlValue) -> bool {
    raw matches TomlValue::Table(top) ==> table_sorted(top@) && (table_view(top@).contains_key("plugins"@) ==> (
    table_view(top@)["plugins"@] matches TomlValue::Table(p) ==> table_sorted(p@))) && (table_view(top@).contains_key("processor"@)
        ==> crate::config::instance::sections_sorted(table_view(top@)["processor"@]))
}

/// The messages for the whole `[processor]` table of a project file.
pub open spec fn processor_errors(plugins: Seq<ProcessorPlugin>, raw: TomlValue, present: Seq<Seq<char>>) -> Seq<Seq<char>> {
    match raw {
        TomlValue::Table(top) => if table_view(top@).contains_key("processor"@) {
            match table_view(top@)["processor"@] {
                TomlValue::Table(e) => processor_table_errors(plugins, plugins_dir(table_view(top@)), present, e@),
                _ => Seq::empty(),
            }
        } else {
            Seq::empty()
        },
        _ => Seq::empty(),
    }
}

/// `[plugins] dir`, or `plugins`.
fn plugins_dir_of(top: &Vec<(String, TomlValue)>) -> (r: String)
    requires
        table_sorted(top@),
        table_view(top@).contains_key("plugins"@) ==> (table_view(top@)["plugins"@] matches TomlValue::Table(p) ==> table_sorted(p@)),
    ensures
        r@ == plugins_dir(table_view(top@)),
{
    match table_get(top, "plugins") {
        Some(TomlValue::Table(p)) => match table_get(p, "dir") {
            Some(TomlValue::String(d)) => d.clone(),
            _ => String::from_str("plugins"),
        },
        _ => String::from_str("plugins"),
    }
}

/// `'A', 'B'`: the keys quoted and comma-separated.
fn quote_keys(keys: &Vec<String>) -> (r: String)
    ensures
        r@ == quoted_list(strs(keys@)),
{
    let mut q: Vec<String> = Vec::new();
    let mut i: usize = 0;
    while i < keys.len()
        invariant
            0 <= i <= keys.len(),
            strs(q@) == strs(keys@).take(i as int).map_values(|k: Seq<char>| "'"@ + k + "'"@),
        decreases keys.len() - i,
    {
        let mut one: String = String::from_str("'");
        one.append(keys[i].as_str());
        one.append("'");
        let ghost before = strs(q@);
        q.push(one);
        proof {
            assert(strs(q@) =~= before.push("'"@ + keys@[i as int]@ + "'"@));
            assert(strs(keys@).take(i + 1).map_values(|k: Seq<char>| "'"@ + k + "'"@) =~= strs(keys@).take(i as int).map_values(
                |k: Seq<char>| "'"@ + k + "'"@,
            ).push("'"@ + keys@[i as int]@ + "'"@));
        }
        i = i + 1;
    }
    proof {
        assert(strs(keys@).take(keys@.len() as int) =~= strs(keys@));
    }
    join_strings(&q, ", ")
}

/// The message for an ambiguous section.
fn ambiguity_message(name: &str, colliding: &Vec<String>) -> (r: String)
    ensures
        r@ == ambiguous_message(name@, strs(colliding@)),
{
    let one: bool = colliding.len() == 1;
    let mut m: String = String::from_str("[processor.");
    m.append(name);
    m.append("]: ambiguous section \u{2014} ");
    m.append(quote_keys(colliding).as_str());
    m.append(" also ");
    m.append(if one {
        "names"
    } else {
        "name"
    });
    m.append(" a config field of '");
    m.append(name);
    m.append("', so this could be read either as config or as named instance");
    m.append(if one {
        ""
    } else {
        "s"
    });
    m.append(". Rename the instance");
    m.append(if one {
        ""
    } else {
        "s"
    });
    m.append(", or move the config fields to [processor.");
    m.append(name);
    m.append("] and keep only instances as sub-tables.");
    proof {
        assert(m@ =~= ambiguous_message(name@, strs(colliding@)));
    }
    m
}

/// Adds the messages for one entry of the `[processor]` table.
fn check_section(
    plugins: &[ProcessorPlugin],
    dir: &str,
    present: &Vec<String>,
    name: &str,
    value: &TomlValue,
    errors: &mut Vec<String>,
)
    requires
        crate::config::instance::section_sorted(*value),
    ensures
        strs(final(errors)@) == strs(old(errors)@) + section_errors(plugins@, dir@, strs(present@), name@, *value),
{
    let ghost e0 = strs(errors@);
    let table: &Vec<(String, TomlValue)> = match value {
        TomlValue::Table(t) => t,
        _ => {
            let mut m: String = String::from_str("[processor]: '");
            m.append(name);
            m.append("' must be a section (e.g. [processor.");
            m.append(name);
            m.append("]), got ");
            m.append(FieldType::describe_value(value));
            errors.push(m);
            proof {
                assert(strs(errors@) =~= e0 + section_errors(plugins@, dir@, strs(present@), name@, *value));
            }
            return;
        },
    };
    if !crate::config::registry::is_builtin_type(plugins, name) {
        if !crate::text::strings_contain(present, name) {
            let mut file: String = String::from_str(name);
            file.append(".lua");
            let mut m: String = String::from_str("[processor.");
            m.append(name);
            m.append("]: unknown processor type '");
            m.append(name);
            m.append("' (not a builtin processor or Lua plugin at ");
            m.append(join_path(dir, file.as_str()).as_str());
            m.append(")");
            errors.push(m);
        }
        proof {
            assert(strs(errors@) =~= e0 + section_errors(plugins@, dir@, strs(present@), name@, *value));
        }
        return;
    }
    let ghost p = registered(plugins@, name@)->0;
    match ProcessorConfig::classify_section(plugins, name, table) {
        SectionShape::MultiInstance => {
            let mut i: usize = 0;
            while i < table.len()
                invariant
                    0 <= i <= table.len(),
                    forall|j: int| 0 <= j < table@.len() ==> crate::config::instance::value_sorted(#[trigger] table@[j].1),
                    strs(errors@) == e0 + instance_errors(p, name@, table@.take(i as int)),
                    registered(plugins@, name@) == Some(p),
                decreases table.len() - i,
            {
                proof {
                    let t = table@.take(i + 1);
                    assert(t.drop_last() =~= table@.take(i as int));
                    assert(t.last() == table@[i as int]);
                }
                let ghost before = strs(errors@);
                match &table[i].1 {
                    TomlValue::Table(inst) => {
                        let mut label: String = String::from_str("processor.");
                        label.append(name);
                        label.append(".");
                        label.append(table[i].0.as_str());
                        validate_single_processor(plugins, name, label.as_str(), inst, errors);
                    },
                    _ => {},
                }
                proof {
                    assert(strs(errors@) =~= e0 + instance_errors(p, name@, table@.take(i + 1)));
                }
                i = i + 1;
            }
            proof {
                assert(table@.take(table@.len() as int) =~= table@);
            }
        },
        SectionShape::SingleInstance => {
            let mut label: String = String::from_str("processor.");
            label.append(name);
            validate_single_processor(plugins, name, label.as_str(), table, errors);
        },
        SectionShape::Ambiguous { colliding } => {
            errors.push(ambiguity_message(name, &colliding));
        },
    }
    proof {
        assert(strs(errors@) =~= e0 + section_errors(plugins@, dir@, strs(present@), name@, *value));
    }
}

/// Checks the `[processor]` table of a project file: each entry must be a
/// section; its type must be builtin or a Lua plugin whose file exists
/// (`present` lists the names whose plugin file was found); a section must
/// not read both as config and as named instances; and each instance's
/// fields are checked. Returns the messages, in table order.
pub fn validate_processor_fields_raw(plugins: &[ProcessorPlugin], raw: &TomlValue, present: &Vec<String>) -> (r: Vec<String>)
    requires
        raw_sorted(*raw),
    ensures
        strs(r@) == processor_errors(plugins@, *raw, strs(present@)),
{
    let mut errors: Vec<String> = Vec::new();
    let top: &Vec<(String, TomlValue)> = match raw {
        TomlValue::Table(top) => top,
        _ => {
            proof {
                assert(strs(errors@) =~= Seq::<Seq<char>>::empty());
            }
            return errors;
        },
    };
    let table: &Vec<(String, TomlValue)> = match table_get(top, "processor") {
        Some(TomlValue::Table(t)) => t,
        _ => {
            proof {
                assert(strs(errors@) =~= Seq::<Seq<char>>::empty());
            }
            return errors;
        },
    };
    let dir: String = plugins_dir_of(top);
    let ghost d = dir@;
    proof {
        assert(strs(errors@) =~= Seq::<Seq<char>>::empty());
    }
    let mut i: usize = 0;
    while i < table.len()
        invariant
            0 <= i <= table.len(),
            forall|j: int| 0 <= j < table@.len() ==> crate::config::instance::section_sorted(#[trigger] table@[j].1),
            strs(errors@) == processor_table_errors(plugins@, d, strs(present@), table@.take(i as int)),
            dir@ == d,
        decreases table.len() - i,
    {
        proof {
            let t = table@.take(i + 1);
            assert(t.drop_last() =~= table@.take(i as int));
            assert(t.last() == table@[i as int]);
        }
        check_section(plugins, dir.as_str(), present, table[i].0.as_str(), &table[i].1, &mut errors);
        i = i + 1;
    }
    proof {
        assert(table@.take(table@.len() as int) =~= table@);
    }
    errors
}

/// The instance is turned off: its `enabled` field is `false`.
pub open spec fn disabled(inst: ProcessorInstance) -> bool {
    config_field(inst, "enabled"@) == Some(TomlValue::Boolean(false))
}

/// Some string of the array `items` is `s`.
pub open spec fn lists_text(items: Seq<TomlValue>, s: Seq<char>) -> bool {
    exists|j: int| 0 <= j < items.len() && #[trigger] is_text(items[j], s)
}

/// ` (ORIGIN)` after a field whose origin is recorded, else nothing.
pub open spec fn origin_suffix(inst: ProcessorInstance, field: Seq<char>) -> Seq<char> {
    if inst.provenance@.contains_key(field) {
        " ("@ + provenance_text(inst.provenance@[field]) + ")"@
    } else {
        Seq::empty()
    }
}

/// The line for an enabled instance whose `src_dirs` lists `.`.
pub open spec fn dot_line(inst: ProcessorInstance) -> Seq<Seq<char>> {
    if !disabled(inst) && (config_field(inst, "src_dirs"@) matches Some(TomlValue::Array(items)) && lists_text(items@, "."@)) {
        seq!["  [processor."@ + inst.instance_name@ + "] src_dirs contains \".\""@ + origin_suffix(inst, "src_dirs"@)]
    } else {
        Seq::empty()
    }
}

/// The lines for the instances whose `src_dirs` lists `.`, in order.
pub open spec fn dot_lines(insts: Seq<ProcessorInstance>) -> Seq<Seq<char>>
    decreases insts.len(),
{
    if insts.len() == 0 {
        Seq::empty()
    } else {
        dot_lines(insts.drop_last()) + dot_line(insts.last())
    }
}

/// The message when some enabled instance lists `.` in `src_dirs`.
pub open spec fn dot_message(lines: Seq<Seq<char>>) -> Seq<char> {
    "Invalid config:\n"@ + join(lines, "\n"@)
        + "\n[build] reject_dot_src_dirs is on: \".\" means the whole project tree, the same as \"\" \u{2014} name the directories the stanza covers, or write \"\" if sweeping the tree is intended"@
}

/// Whether an array lists the string `s`.
fn array_lists(items: &Vec<TomlValue>, s: &str) -> (r: bool)
    ensures
        r == lists_text(items@, s@),
{
    let mut j: usize = 0;
    while j < items.len()
        invariant
            0 <= j <= items.len(),
            forall|k: int| 0 <= k < j ==> !#[trigger] is_text(items@[k], s@),
        decreases items.len() - j,
    {
        match &items[j] {
            TomlValue::String(x) => {
                if str_eq(x.as_str(), s) {
                    proof {
                        assert(is_text(items@[j as int], s@));
                    }
                    return true;
                }
            },
            _ => {},
        }
        j = j + 1;
    }
    false
}

/// ` (ORIGIN)` for a field whose origin is recorded.
fn origin_text(inst: &ProcessorInstance, field: &str) -> (r: String)
    requires
        inst.provenance.wf(),
    ensures
        r@ == origin_suffix(*inst, field@),
{
    match inst.provenance.get(field) {
        Some(p) => {
            let mut m: String = String::from_str(" (");
            m.append(p.to_string().as_str());
            m.append(")");
            m
        },
        None => {
            let m = String::new();
            proof {
                assert(m@ =~= Seq::<char>::empty());
            }
            m
        },
    }
}

/// The value of a field of an instance's config.
fn field_of<'a>(inst: &'a ProcessorInstance, field: &str) -> (r: Option<&'a TomlValue>)
    requires
        instance_wf(*inst),
    ensures
        r is Some <==> config_field(*inst, field@) is Some,
        r matches Some(v) ==> config_field(*inst, field@) == Some(*v),
{
    match &inst.config_toml {
        TomlValue::Table(e) => table_get(e, field),
        _ => None,
    }
}

/// Whether an instance is turned off.
fn is_disabled(inst: &ProcessorInstance) -> (r: bool)
    requires
        instance_wf(*inst),
    ensures
        r == disabled(*inst),
{
    match field_of(inst, "enabled") {
        Some(TomlValue::Boolean(b)) => !*b,
        _ => false,
    }
}

use crate::text::str_eq;

/// With `[build] reject_dot_src_dirs` on, no enabled instance may list `.`
/// in `src_dirs` (`.` and the empty string both mean the whole tree; the
/// switch asks for that to be spelled out, or for the directories to be
/// named). The error lists each such instance, with the origin of its
/// `src_dirs`.
pub fn validate_no_dot_src_dirs(instances: &Vec<ProcessorInstance>, build: &BuildConfig) -> (r: Result<(), RsconstructError>)
    requires
        forall|i: int| 0 <= i < instances@.len() ==> #[trigger] instance_wf(instances@[i]),
    ensures
        r is Ok <==> !build.reject_dot_src_dirs || dot_lines(instances@).len() == 0,
        r matches Err(e) ==> e.exit_code == RsconstructExitCode::ConfigError && e.message@ == dot_message(dot_lines(instances@)),
{
    if !build.reject_dot_src_dirs {
        return Ok(());
    }
    let mut lines: Vec<String> = Vec::new();
    let mut i: usize = 0;
    while i < instances.len()
        invariant
            0 <= i <= instances.len(),
            forall|q: int| 0 <= q < instances@.len() ==> #[trigger] instance_wf(instances@[q]),
            strs(lines@) == dot_lines(instances@.take(i as int)),
        decreases instances.len() - i,
    {
        proof {
            let t = instances@.take(i + 1);
            assert(t.drop_last() =~= instances@.take(i as int));
            assert(t.last() == instances@[i as int]);
            assert(instance_wf(instances@[i as int]));
        }
        let inst: &ProcessorInstance = &instances[i];
        let ghost before = strs(lines@);
        if !is_disabled(inst) {
            match field_of(inst, "src_dirs") {
                Some(TomlValue::Array(items)) => {
                    if array_lists(items, ".") {
                        let mut m: String = String::from_str("  [processor.");
                        m.append(inst.instance_name.as_str());
                        m.append("] src_dirs contains \".\"");
                        m.append(origin_text(inst, "src_dirs").as_str());
                        lines.push(m);
                    }
                },
                _ => {},
            }
        }
        proof {
            assert(strs(lines@) =~= before + dot_line(instances@[i as int]));
        }
        i = i + 1;
    }
    proof {
        assert(instances@.take(instances@.len() as int) =~= instances@);
    }
    if lines.len() == 0 {
        return Ok(());
    }
    let mut m: String = String::from_str("Invalid config:\n");
    m.append(join_strings(&lines, "\n").as_str());
    m.append("\n[build] reject_dot_src_dirs is on: \".\" means the whole project tree, the same as \"\" \u{2014} name the directories the stanza covers, or write \"\" if sweeping the tree is intended");
    Err(config_error(m.as_str()))
}

/// The strings of an array, in order; other items are skipped.
pub open spec fn string_items(items: Seq<TomlValue>) -> Seq<Seq<char>>
    decreases items.len(),
{
    if items.len() == 0 {
        Seq::empty()
    } else {
        string_items(items.drop_last()) + match items.last() {
            TomlValue::String(x) => seq![x@],
            _ => Seq::empty(),
        }
    }
}

/// The user set the field: in the project file or on the command line.
pub open spec fn user_set(inst: ProcessorInstance, field: Seq<char>) -> bool {
    inst.provenance@.contains_key(field) && (inst.provenance@[field] is UserToml || inst.provenance@[field] is CliOverride)
}

/// The `dep_auto` entries of one instance to check on disk: (instance
/// name, entry, origin), for an enabled instance whose list the user set.
pub open spec fn dep_auto_entries(inst: ProcessorInstance) -> Seq<(Seq<char>, Seq<char>, Seq<char>)> {
    if user_set(inst, "dep_auto"@) && !disabled(inst) && config_field(inst, "dep_auto"@) is Some
        && config_field(inst, "dep_auto"@)->0 is Array {
        string_items(config_field(inst, "dep_auto"@)->0->Array_0@).map_values(
            |e: Seq<char>| (inst.instance_name@, e, provenance_text(inst.provenance@["dep_auto"@])),
        )
    } else {
        Seq::empty()
    }
}

/// The `dep_auto` entries of all instances to check on disk, in order.
pub open spec fn dep_auto_spec(insts: Seq<ProcessorInstance>) -> Seq<(Seq<char>, Seq<char>, Seq<char>)>
    decreases insts.len(),
{
    if insts.len() == 0 {
        Seq::empty()
    } else {
        dep_auto_spec(insts.drop_last()) + dep_auto_entries(insts.last())
    }
}

/// A `dep_auto` entry the user listed, to be looked for on disk: the
/// instance, the entry, and where the list was set.
#[derive(Debug, Clone)]
pub struct DepAutoCheck {
    pub instance_name: String,
    pub entry: String,
    pub source: String,
}

/// The views of the checks.
pub open spec fn check_views(v: Seq<DepAutoCheck>) -> Seq<(Seq<char>, Seq<char>, Seq<char>)> {
    v.map_values(|c: DepAutoCheck| (c.instance_name@, c.entry@, c.source@))
}

/// The `dep_auto` entries listed by the user that must exist on disk:
/// none when `[build] allow_missing_dep_auto` is on; else each string of
/// the `dep_auto` list of every enabled instance whose list was set in the
/// project file or on the command line (a processor's own default list is
/// optional by nature).
pub fn dep_auto_checks(instances: &Vec<ProcessorInstance>, build: &BuildConfig) -> (r: Vec<DepAutoCheck>)
    requires
        forall|i: int| 0 <= i < instances@.len() ==> #[trigger] instance_wf(instances@[i]),
    ensures
        check_views(r@) == if build.allow_missing_dep_auto {
            Seq::empty()
        } else {
            dep_auto_spec(instances@)
        },
{
    let mut r: Vec<DepAutoCheck> = Vec::new();
    proof {
        assert(check_views(r@) =~= Seq::<(Seq<char>, Seq<char>, Seq<char>)>::empty());
    }
    if build.allow_missing_dep_auto {
        return r;
    }
    let mut i: usize = 0;
    while i < instances.len()
        invariant
            0 <= i <= instances.len(),
            forall|q: int| 0 <= q < instances@.len() ==> #[trigger] instance_wf(instances@[q]),
            check_views(r@) == dep_auto_spec(instances@.take(i as int)),
        decreases instances.len() - i,
    {
        proof {
            let t = instances@.take(i + 1);
            assert(t.drop_last() =~= instances@.take(i as int));
            assert(t.last() == instances@[i as int]);
            assert(instance_wf(instances@[i as int]));
        }
        let inst: &ProcessorInstance = &instances[i];
        let ghost before = check_views(r@);
        let source: Option<FieldProvenance> = inst.provenance.get("dep_auto");
        let user: bool = match source {
            Some(FieldProvenance::UserToml { .. }) => true,
            Some(FieldProvenance::CliOverride) => true,
            _ => false,
        };
        if user && !is_disabled(inst) {
            match field_of(inst, "dep_auto") {
                Some(TomlValue::Array(items)) => {
                    let src: String = source.unwrap().to_string();
                    let ghost base = check_views(r@);
                    let mut j: usize = 0;
                    while j < items.len()
                        invariant
                            0 <= j <= items.len(),
                            check_views(r@) == base + string_items(items@.take(j as int)).map_values(
                                |e: Seq<char>| (inst.instance_name@, e, src@),
                            ),
                        decreases items.len() - j,
                    {
                        proof {
                            let t = items@.take(j + 1);
                            assert(t.drop_last() =~= items@.take(j as int));
                            assert(t.last() == items@[j as int]);
                        }
                        let ghost b1 = check_views(r@);
                        match &items[j] {
                            TomlValue::String(x) => {
                                r.push(DepAutoCheck { instance_name: inst.instance_name.clone(), entry: x.clone(), source: src.clone() });
                                proof {
                                    assert(check_views(r@) =~= b1.push((inst.instance_name@, x@, src@)));
                                }
                            },
                            _ => {},
                        }
                        proof {
                            assert(check_views(r@) =~= base + string_items(items@.take(j + 1)).map_values(
                                |e: Seq<char>| (inst.instance_name@, e, src@),
                            ));
                        }
                        j = j + 1;
                    }
                    proof {
                        assert(items@.take(items@.len() as int) =~= items@);
                    }
                },
                _ => {},
            }
        }
        proof {
            assert(check_views(r@) =~= before + dep_auto_entries(instances@[i as int]));
        }
        i = i + 1;
    }
    proof {
        assert(instances@.take(instances@.len() as int) =~= instances@);
    }
    r
}

/// The line for an entry that is not on disk.
pub open spec fn missing_line(c: (Seq<char>, Seq<char>, Seq<char>)) -> Seq<char> {
    "  [processor."@ + c.0 + "] dep_auto file not found: "@ + c.1 + " ("@ + c.2 + ")"@
}

/// The lines for the entries not on disk (`found[i]` tells whether the
/// `i`-th is), in order.
pub open spec fn missing_lines(checks: Seq<(Seq<char>, Seq<char>, Seq<char>)>, found: Seq<bool>) -> Seq<Seq<char>>
    decreases checks.len(),
{
    if checks.len() == 0 {
        Seq::empty()
    } else {
        missing_lines(checks.drop_last(), found) + if found[checks.len() - 1] {
            Seq::empty()
        } else {
            seq![missing_line(checks.last())]
        }
    }
}

/// The message when listed `dep_auto` entries are not on disk.
pub open spec fn dep_auto_message(lines: Seq<Seq<char>>) -> Seq<char> {
    "Invalid config:\n"@ + join(lines, "\n"@)
        + "\nEvery dep_auto entry listed in the config must exist \u{2014} remove the entry, or set [build] allow_missing_dep_auto = true to skip absent entries as before"@
}

/// The verdict on the listed `dep_auto` entries, given which of them are
/// on disk: an error listing each missing one, or success when none is.
pub fn dep_auto_verdict(checks: &Vec<DepAutoCheck>, found: &Vec<bool>) -> (r: Result<(), RsconstructError>)
    requires
        found@.len() == checks@.len(),
    ensures
        r is Ok <==> missing_lines(check_views(checks@), found@).len() == 0,
        r matches Err(e) ==> e.exit_code == RsconstructExitCode::ConfigError && e.message@ == dep_auto_message(
            missing_lines(check_views(checks@), found@),
        ),
{
    let mut lines: Vec<String> = Vec::new();
    let mut i: usize = 0;
    while i < checks.len()
        invariant
            0 <= i <= checks.len(),
            found@.len() == checks@.len(),
            strs(lines@) == missing_lines(check_views(checks@).take(i as int), found@),
        decreases checks.len() - i,
    {
        proof {
            let t = check_views(checks@).take(i + 1);
            assert(t.drop_last() =~= check_views(checks@).take(i as int));
            assert(t.last() == check_views(checks@)[i as int]);
        }
        let ghost before = strs(lines@);
        if !found[i] {
            let c: &DepAutoCheck = &checks[i];
            let mut m: String = String::from_str("  [processor.");
            m.append(c.instance_name.as_str());
            m.append("] dep_auto file not found: ");
            m.append(c.entry.as_str());
            m.append(" (");
            m.append(c.source.as_str());
            m.append(")");
            lines.push(m);
            proof {
                assert(strs(lines@) =~= before.push(missing_line(check_views(checks@)[i as int])));
            }
        }
        i = i + 1;
    }
    proof {
        assert(check_views(checks@).take(checks@.len() as int) =~= check_views(checks@));
    }
    if lines.len() == 0 {
        return Ok(());
    }
    let mut m: String = String::from_str("Invalid config:\n");
    m.append(join_strings(&lines, "\n").as_str());
    m.append("\nEvery dep_auto entry listed in the config must exist \u{2014} remove the entry, or set [build] allow_missing_dep_auto = true to skip absent entries as before");
    Err(config_error(m.as_str()))
}

} // verus!
