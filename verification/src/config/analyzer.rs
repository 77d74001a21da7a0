//! Analyzer instances: the `[analyzer.TYPE]` and `[analyzer.TYPE.NAME]`
//! sections of the project file, and their checks.

use vstd::prelude::*;
use crate::config::instance::{all_tables, seed_user_provenance, seeded, value_sorted};
use crate::config::provenance::ProvenanceMap;
use crate::config::toml_value::{TomlValue, table_get, table_sorted, table_view};
use crate::config::validation::{prefixed, section_prefix};
use crate::text::{join, join_strings, str_eq, str_views, strs, strs_contain};

verus! {

/// A dependency analyzer type as the registry records it: its name and
/// the fields its section may set.
#[derive(Clone, Copy)]
pub struct AnalyzerPlugin {
    pub name: &'static str,
    pub known_fields: &'static [&'static str],
}

/// The position of the first analyzer named `name`, from `k` on.
pub open spec fn analyzer_index(plugins: Seq<AnalyzerPlugin>, name: Seq<char>, k: int) -> Option<nat>
    decreases plugins.len() - k,
{
    if k < 0 || k >= plugins.len() {
        None
    } else if plugins[k].name@ == name {
        Some(k as nat)
    } else {
        analyzer_index(plugins, name, k + 1)
    }
}

/// The registry entry of an analyzer type.
pub open spec fn analyzer_registered(plugins: Seq<AnalyzerPlugin>, name: Seq<char>) -> Option<AnalyzerPlugin> {
    match analyzer_index(plugins, name, 0) {
        Some(i) => Some(plugins[i as int]),
        None => None,
    }
}

/// The registry entry of an analyzer type.
pub fn find_analyzer_plugin<'a>(plugins: &'a [AnalyzerPlugin], name: &str) -> (r: Option<&'a AnalyzerPlugin>)
    ensures
        r is Some <==> analyzer_registered(plugins@, name@) is Some,
        r matches Some(p) ==> *p == analyzer_registered(plugins@, name@)->0,
{
    let mut i: usize = 0;
    while i < plugins.len()
        invariant
            0 <= i <= plugins.len(),
            analyzer_index(plugins@, name@, 0) == analyzer_index(plugins@, name@, i as int),
        decreases plugins.len() - i,
    {
        if str_eq(plugins[i].name, name) {
            return Some(&plugins[i]);
        }
        i = i + 1;
    }
    None
}

/// One declared analyzer instance: `cpp` for a single instance, `cpp.kernel`
/// for a named one, with its type, its config, and the origin of every
/// field.
#[derive(Debug)]
pub struct AnalyzerInstance {
    pub instance_name: String,
    pub analyzer_type: String,
    pub config_toml: TomlValue,
    pub provenance: ProvenanceMap,
}

/// The declared analyzer instances.
#[derive(Debug)]
pub struct AnalyzerConfig {
    pub instances: Vec<AnalyzerInstance>,
}

/// A section is a set of named instances: not empty, and every value a
/// table.
pub open spec fn analyzer_multi(entries: Seq<(String, TomlValue)>) -> bool {
    entries.len() > 0 && all_tables(entries)
}

/// The instances an `[analyzer.TYPE]` section declares: (instance name,
/// raw config).
pub open spec fn analyzer_section_instances(key: Seq<char>, val: TomlValue) -> Seq<(Seq<char>, TomlValue)> {
    match val {
        TomlValue::Table(sub) => if analyzer_multi(sub@) {
            sub@.map_values(|e: (String, TomlValue)| (key + "."@ + e.0@, e.1))
        } else {
            seq![(key, val)]
        },
        _ => Seq::empty(),
    }
}

/// The first entry of the `[analyzer]` table that cannot be read, and its
/// message: an unknown type, or a value that is not a table.
pub open spec fn analyzer_table_error(plugins: Seq<AnalyzerPlugin>, e: Seq<(String, TomlValue)>, k: int) -> Option<Seq<char>>
    decreases e.len() - k,
{
    if k < 0 || k >= e.len() {
        None
    } else if analyzer_registered(plugins, e[k].0@) is None {
        Some("Unknown analyzer '"@ + e[k].0@ + "'. Run 'rsconstruct analyzers list' to see available analyzers."@)
    } else if !(e[k].1 is Table) {
        Some("Expected [analyzer."@ + e[k].0@ + "] to be a table"@)
    } else {
        analyzer_table_error(plugins, e, k + 1)
    }
}

/// The instances the entries of the `[analyzer]` table declare, in order.
pub open spec fn declared_analyzers(e: Seq<(String, TomlValue)>) -> Seq<(Seq<char>, Seq<char>, TomlValue)>
    decreases e.len(),
{
    if e.len() == 0 {
        Seq::empty()
    } else {
        declared_analyzers(e.drop_last()) + analyzer_section_instances(e.last().0@, e.last().1).map_values(
            |x: (Seq<char>, TomlValue)| (x.0, e.last().0@, x.1),
        )
    }
}

/// An analyzer instance made from its raw config.
pub open spec fn analyzer_made(inst: AnalyzerInstance, name: Seq<char>, kind: Seq<char>, raw: TomlValue) -> bool {
    &&& inst.instance_name@ == name
    &&& inst.analyzer_type@ == kind
    &&& inst.config_toml == raw
    &&& inst.provenance.wf()
    &&& inst.provenance@ == seeded(raw)
}

impl AnalyzerConfig {
    /// Whether a section is a set of named instances: not empty, and every
    /// value a table.
    pub fn is_multi_instance(table: &Vec<(String, TomlValue)>) -> (r: bool)
        ensures
            r == analyzer_multi(table@),
    {
        if table.len() == 0 {
            return false;
        }
        let mut i: usize = 0;
        while i < table.len()
            invariant
                0 <= i <= table.len(),
                forall|j: int| 0 <= j < i ==> #[trigger] table@[j].1 is Table,
            decreases table.len() - i,
        {
            if !matches!(&table[i].1, TomlValue::Table(_)) {
                return false;
            }
            i = i + 1;
        }
        true
    }

    /// Reads the `[analyzer]` table into instances: one (`TYPE`) per
    /// section, or one per named sub-table (`TYPE.NAME`), each with the
    /// fields it sets marked as set in the project file. An unknown type,
    /// or a section that is not a table, is an error, the first one met.
    pub fn from_toml(plugins: &[AnalyzerPlugin], value: TomlValue) -> (r: Result<AnalyzerConfig, String>)
        ensures
            value matches TomlValue::Table(e) ==> match analyzer_table_error(plugins@, e@, 0) {
                Some(m) => r matches Err(x) && x@ == m,
                None => r matches Ok(c) && c.instances@.len() == declared_analyzers(e@).len() && forall|i: int|
                    0 <= i < c.instances@.len() ==> #[trigger] analyzer_made(
                        c.instances@[i],
                        declared_analyzers(e@)[i].0,
                        declared_analyzers(e@)[i].1,
                        declared_analyzers(e@)[i].2,
                    ),
            },
            !(value is Table) ==> (r matches Ok(c) && c.instances@.len() == 0),
    {
        let mut instances: Vec<AnalyzerInstance> = Vec::new();
        let mut entries: Vec<(String, TomlValue)> = match value {
            TomlValue::Table(entries) => entries,
            _ => {
                return Ok(AnalyzerConfig { instances });
            },
        };
        let total: usize = entries.len();
        let ghost e0 = entries@;
        let mut i: usize = 0;
        while entries.len() > 0
            invariant
                0 <= i <= e0.len(),
                e0.len() == total,
                value is Table && value->Table_0@ == e0,
                entries@ == e0.skip(i as int),
                analyzer_table_error(plugins@, e0, 0) == analyzer_table_error(plugins@, e0, i as int),
                instances@.len() == declared_analyzers(e0.take(i as int)).len(),
                forall|q: int| 0 <= q < instances@.len() ==> #[trigger] analyzer_made(
                    instances@[q],
                    declared_analyzers(e0.take(i as int))[q].0,
                    declared_analyzers(e0.take(i as int))[q].1,
                    declared_analyzers(e0.take(i as int))[q].2,
                ),
            decreases entries.len(),
        {
            proof {
                assert(entries@[0] == e0[i as int]);
            }
            let (kind, val) = entries.remove(0);
            if find_analyzer_plugin(plugins, kind.as_str()).is_none() {
                let mut m: String = String::from_str("Unknown analyzer '");
                m.append(kind.as_str());
                m.append("'. Run 'rsconstruct analyzers list' to see available analyzers.");
                return Err(m);
            }
            let sub: Vec<(String, TomlValue)> = match val {
                TomlValue::Table(sub) => sub,
                _ => {
                    let mut m: String = String::from_str("Expected [analyzer.");
                    m.append(kind.as_str());
                    m.append("] to be a table");
                    return Err(m);
                },
            };
            let ghost d0 = declared_analyzers(e0.take(i as int));
            let ghost n0 = instances@.len();
            let ghost vv = TomlValue::Table(sub);
            let ghost si = analyzer_section_instances(kind@, vv).map_values(|x: (Seq<char>, TomlValue)| (x.0, kind@, x.1));
            proof {
                let t1 = e0.take(i + 1);
                assert(t1.drop_last() =~= e0.take(i as int));
                assert(t1.last() == e0[i as int]);
                assert(declared_analyzers(t1) == d0 + si);
            }
            if Self::is_multi_instance(&sub) {
                let mut rest: Vec<(String, TomlValue)> = sub;
                let ghost s0 = rest@;
                proof {
                    assert(vv == TomlValue::Table(rest));
                    assert(si.len() == s0.len());
                }
                let count: usize = rest.len();
                let mut j: usize = 0;
                while rest.len() > 0
                    invariant
                        0 <= j <= s0.len(),
                        s0.len() == count,
                        rest@ == s0.skip(j as int),
                        si.len() == s0.len(),
                        forall|q: int| 0 <= q < s0.len() ==> #[trigger] si[q] == (kind@ + "."@ + s0[q].0@, kind@, s0[q].1),
                        instances@.len() == n0 + j,
                        forall|q: int| 0 <= q < n0 ==> #[trigger] analyzer_made(instances@[q], d0[q].0, d0[q].1, d0[q].2),
                        forall|q: int| 0 <= q < j ==> #[trigger] analyzer_made(instances@[n0 + q], si[q].0, si[q].1, si[q].2),
                    decreases rest.len(),
                {
                    proof {
                        assert(rest@[0] == s0[j as int]);
                    }
                    let (name, inst_val) = rest.remove(0);
                    let provenance = seed_user_provenance(&inst_val);
                    let mut full: String = kind.clone();
                    full.append(".");
                    full.append(name.as_str());
                    instances.push(AnalyzerInstance { instance_name: full, analyzer_type: kind.clone(), config_toml: inst_val, provenance });
                    proof {
                        assert(rest@ =~= s0.skip(j + 1));
                    }
                    j = j + 1;
                }
            } else {
                let v: TomlValue = TomlValue::Table(sub);
                let provenance = seed_user_provenance(&v);
                proof {
                    assert(analyzer_section_instances(kind@, vv) == seq![(kind@, vv)]);
                    assert(si =~= seq![(kind@, kind@, vv)]);
                }
                instances.push(AnalyzerInstance { instance_name: kind.clone(), analyzer_type: kind, config_toml: v, provenance });
                proof {
                    assert(analyzer_made(instances@[n0 as int], si[0].0, si[0].1, si[0].2));
                }
            }
            proof {
                let d1 = d0 + si;
                assert forall|q: int| 0 <= q < instances@.len() implies #[trigger] analyzer_made(instances@[q], d1[q].0, d1[q].1, d1[q].2) by {
                    if q < n0 {
                        assert(d1[q] == d0[q]);
                    } else {
                        let k = q - n0;
                        assert(d1[q] == si[k]);
                        assert(instances@[n0 + k] == instances@[q]);
                    }
                }
            }
            proof {
                assert(entries@ =~= e0.skip(i + 1));
            }
            i = i + 1;
        }
        proof {
            assert(e0.take(i as int) =~= e0);
        }
        Ok(AnalyzerConfig { instances })
    }
}

/// The messages for the unknown fields of an analyzer section, in order.
pub open spec fn analyzer_section_errors(p: AnalyzerPlugin, label: Seq<char>, e: Seq<(String, TomlValue)>) -> Seq<Seq<char>>
    decreases e.len(),
{
    if e.len() == 0 {
        Seq::empty()
    } else {
        analyzer_section_errors(p, label, e.drop_last()) + if str_views(p.known_fields@).contains(e.last().0@) {
            Seq::empty()
        } else {
            seq![
                section_prefix(label) + "unknown field '"@ + e.last().0@ + "' (valid fields: "@ + join(str_views(p.known_fields@), ", "@)
                    + ")"@,
            ]
        }
    }
}

/// The messages for the named instances of an analyzer section, in order.
pub open spec fn analyzer_instance_errors(p: AnalyzerPlugin, kind: Seq<char>, sub: Seq<(String, TomlValue)>) -> Seq<Seq<char>>
    decreases sub.len(),
{
    if sub.len() == 0 {
        Seq::empty()
    } else {
        analyzer_instance_errors(p, kind, sub.drop_last()) + match sub.last().1 {
            TomlValue::Table(t) => analyzer_section_errors(p, "analyzer."@ + kind + "."@ + sub.last().0@, t@),
            _ => Seq::empty(),
        }
    }
}

/// The messages for one entry of the `[analyzer]` table: a value that is
/// not a table, an unknown type, else the unknown fields of its instance
/// or instances.
pub open spec fn analyzer_entry_errors(plugins: Seq<AnalyzerPlugin>, kind: Seq<char>, value: TomlValue) -> Seq<Seq<char>> {
    match value {
        TomlValue::Table(t) => match analyzer_registered(plugins, kind) {
            None => seq![
                "[analyzer."@ + kind + "]: unknown analyzer type '"@ + kind + "' (run 'rsconstruct analyzers list' to see available)"@,
            ],
            Some(p) => if analyzer_multi(t@) {
                analyzer_instance_errors(p, kind, t@)
            } else {
                analyzer_section_errors(p, "analyzer."@ + kind, t@)
            },
        },
        _ => seq!["[analyzer."@ + kind + "]: expected a table"@],
    }
}

/// The messages for the entries of the `[analyzer]` table, in order.
pub open spec fn analyzer_table_errors(plugins: Seq<AnalyzerPlugin>, e: Seq<(String, TomlValue)>) -> Seq<Seq<char>>
    decreases e.len(),
{
    if e.len() == 0 {
        Seq::empty()
    } else {
        analyzer_table_errors(plugins, e.drop_last()) + analyzer_entry_errors(plugins, e.last().0@, e.last().1)
    }
}

/// The messages for the `[analyzer]` table of a project file.
pub open spec fn analyzer_errors(plugins: Seq<AnalyzerPlugin>, raw: TomlValue) -> Seq<Seq<char>> {
    match raw {
        TomlValue::Table(top) => if table_view(top@).contains_key("analyzer"@) {
            match table_view(top@)["analyzer"@] {
                TomlValue::Table(e) => analyzer_table_errors(plugins, e@),
                _ => Seq::empty(),
            }
        } else {
            Seq::empty()
        },
        _ => Seq::empty(),
    }
}

/// Adds a message for each field of an analyzer section that its type
/// does not take, listing the fields it takes.
pub fn validate_analyzer_section(plugin: &AnalyzerPlugin, section_label: &str, table: &Vec<(String, TomlValue)>, errors: &mut Vec<String>)
    ensures
        strs(final(errors)@) == strs(old(errors)@) + analyzer_section_errors(*plugin, section_label@, table@),
{
    let mut names: Vec<String> = Vec::new();
    let mut q: usize = 0;
    while q < plugin.known_fields.len()
        invariant
            0 <= q <= plugin.known_fields.len(),
            strs(names@) == str_views(plugin.known_fields@).take(q as int),
        decreases plugin.known_fields.len() - q,
    {
        let ghost before = strs(names@);
        let name: String = String::from_str(plugin.known_fields[q]);
        names.push(name);
        proof {
            assert(strs(names@) =~= before.push(plugin.known_fields@[q as int]@));
            assert(str_views(plugin.known_fields@).take(q + 1) =~= str_views(plugin.known_fields@).take(q as int).push(
                plugin.known_fields@[q as int]@,
            ));
        }
        q = q + 1;
    }
    proof {
        assert(str_views(plugin.known_fields@).take(plugin.known_fields@.len() as int) =~= str_views(plugin.known_fields@));
    }
    let joined: String = join_strings(&names, ", ");
    let ghost e0 = strs(errors@);
    let mut i: usize = 0;
    while i < table.len()
        invariant
            0 <= i <= table.len(),
            joined@ == join(str_views(plugin.known_fields@), ", "@),
            strs(errors@) == e0 + analyzer_section_errors(*plugin, section_label@, table@.take(i as int)),
        decreases table.len() - i,
    {
        proof {
            let t = table@.take(i + 1);
            assert(t.drop_last() =~= table@.take(i as int));
            assert(t.last() == table@[i as int]);
        }
        let ghost before = strs(errors@);
        if !strs_contain(plugin.known_fields, table[i].0.as_str()) {
            let mut m: String = prefixed(section_label, "unknown field '");
            m.append(table[i].0.as_str());
            m.append("' (valid fields: ");
            m.append(joined.as_str());
            m.append(")");
            errors.push(m);
            proof {
                assert(strs(errors@) =~= before.push(section_prefix(section_label@) + "unknown field '"@ + table@[i as int].0@
                    + "' (valid fields: "@ + join(str_views(plugin.known_fields@), ", "@) + ")"@));
            }
        }
        proof {
            assert(strs(errors@) =~= e0 + analyzer_section_errors(*plugin, section_label@, table@.take(i + 1)));
        }
        i = i + 1;
    }
    proof {
        assert(table@.take(table@.len() as int) =~= table@);
    }
}

/// Checks the `[analyzer]` table of a project file: each entry must be a
/// table of a known analyzer type, and its instance or instances may only
/// set fields the type takes. Returns the messages, in table order.
pub fn validate_analyzer_fields_raw(plugins: &[AnalyzerPlugin], raw: &TomlValue) -> (r: Vec<String>)
    requires
        raw matches TomlValue::Table(top) ==> table_sorted(top@),
    ensures
        strs(r@) == analyzer_errors(plugins@, *raw),
{
    let mut errors: Vec<String> = Vec::new();
    proof {
        assert(strs(errors@) =~= Seq::<Seq<char>>::empty());
    }
    let top: &Vec<(String, TomlValue)> = match raw {
        TomlValue::Table(top) => top,
        _ => {
            return errors;
        },
    };
    let table: &Vec<(String, TomlValue)> = match table_get(top, "analyzer") {
        Some(TomlValue::Table(t)) => t,
        _ => {
            return errors;
        },
    };
    let mut i: usize = 0;
    while i < table.len()
        invariant
            0 <= i <= table.len(),
            strs(errors@) == analyzer_table_errors(plugins@, table@.take(i as int)),
        decreases table.len() - i,
    {
        proof {
            let t = table@.take(i + 1);
            assert(t.drop_last() =~= table@.take(i as int));
            assert(t.last() == table@[i as int]);
        }
        let ghost before = strs(errors@);
        let kind: &str = table[i].0.as_str();
        match &table[i].1 {
            TomlValue::Table(t) => match find_analyzer_plugin(plugins, kind) {
                None => {
                    let mut m: String = String::from_str("[analyzer.");
                    m.append(kind);
                    m.append("]: unknown analyzer type '");
                    m.append(kind);
                    m.append("' (run 'rsconstruct analyzers list' to see available)");
                    errors.push(m);
                },
                Some(p) => {
                    if AnalyzerConfig::is_multi_instance(t) {
                        let ghost b0 = strs(errors@);
                        let mut j: usize = 0;
                        while j < t.len()
                            invariant
                                0 <= j <= t.len(),
                                strs(errors@) == b0 + analyzer_instance_errors(*p, kind@, t@.take(j as int)),
                            decreases t.len() - j,
                        {
                            proof {
                                let u = t@.take(j + 1);
                                assert(u.drop_last() =~= t@.take(j as int));
                                assert(u.last() == t@[j as int]);
                            }
                            match &t[j].1 {
                                TomlValue::Table(inst) => {
                                    let mut label: String = String::from_str("analyzer.");
                                    label.append(kind);
                                    label.append(".");
                                    label.append(t[j].0.as_str());
                                    validate_analyzer_section(p, label.as_str(), inst, &mut errors);
                                },
                                _ => {},
                            }
                            proof {
                                assert(strs(errors@) =~= b0 + analyzer_instance_errors(*p, kind@, t@.take(j + 1)));
                            }
                            j = j + 1;
                        }
                        proof {
                            assert(t@.take(t@.len() as int) =~= t@);
                        }
                    } else {
                        let mut label: String = String::from_str("analyzer.");
                        label.append(kind);
                        validate_analyzer_section(p, label.as_str(), t, &mut errors);
                    }
                },
            },
            _ => {
                let mut m: String = String::from_str("[analyzer.");
                m.append(kind);
                m.append("]: expected a table");
                errors.push(m);
            },
        }
        proof {
            assert(strs(errors@) =~= before + analyzer_entry_errors(plugins@, table@[i as int].0@, table@[i as int].1));
        }
        i = i + 1;
    }
    proof {
        assert(table@.take(table@.len() as int) =~= table@);
    }
    errors
}

} // verus!
