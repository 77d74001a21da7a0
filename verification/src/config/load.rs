//! Assembling the raw configuration from its layers: the user-level file
//! underneath, the project file, and the local overlay on top, each with its
//! own `[vars]` substituted, checked against the processor and analyzer
//! schemas before anything reads the sections.

use vstd::prelude::*;
use crate::config::analyzer::{AnalyzerPlugin, analyzer_errors, validate_analyzer_fields_raw};
use crate::config::instance::{section_sorted, sections_sorted, value_sorted};
use crate::config::registry::ProcessorPlugin;
use crate::config::toml_value::{
    TomlValue, deep_sorted, lemma_deep_sorted_table, lemma_table_entry, merge_toml_values, merged, parse_toml_document,
    table_sorted, table_view, toml_parse,
};
use crate::config::validation::{processor_errors, raw_sorted, validate_processor_fields_raw};
use crate::config::variables::{substitute_spec, substitute_variables};
use crate::exit_code::{ErrorChain, ErrorLink, RsconstructError, RsconstructExitCode, config_error};
use crate::text::{join, join_strings, str_eq, strs};

verus! {

/// The project file.
pub const CONFIG_FILE: &'static str = "rsconstruct.toml";

/// The local overlay, deep-merged over the project file.
pub const LOCAL_CONFIG_FILE: &'static str = "rsconstruct.local.toml";

/// What the project file in `display` holds once its variables are
/// substituted and it is parsed, or the message of the first step that
/// failed.
pub open spec fn config_layer(content: Seq<char>, display: Seq<char>) -> Result<TomlValue, Seq<char>> {
    match substitute_spec(content) {
        Err(m) => Err("Failed to substitute variables in "@ + display + ": "@ + m),
        Ok(s) => match toml_parse(s) {
            Err(e) => Err("Failed to parse config file "@ + display + ": "@ + e),
            Ok(v) => Ok(v),
        },
    }
}

/// A table with no entries.
pub open spec fn is_empty_table(v: TomlValue) -> bool {
    v matches TomlValue::Table(e) && e@.len() == 0
}

/// The bottom layer: the user-level document, or an empty table when there
/// is none.
pub open spec fn base_layer(user: Option<TomlValue>, b: TomlValue) -> bool {
    match user {
        Some(u) => b == u,
        None => is_empty_table(b),
    }
}

/// The messages of both schema checks, the processor ones first.
pub open spec fn schema_errors(
    plugins: Seq<ProcessorPlugin>,
    analyzers: Seq<AnalyzerPlugin>,
    raw: TomlValue,
    present: Seq<Seq<char>>,
) -> Seq<Seq<char>> {
    processor_errors(plugins, raw, present) + analyzer_errors(analyzers, raw)
}

/// `Invalid config:` over the messages, one per line.
pub open spec fn invalid_config(errors: Seq<Seq<char>>) -> Seq<char> {
    "Invalid config:\n"@ + join(errors, "\n"@)
}

/// `v` is what the layers merge to: the project document over the bottom
/// layer, then the local document, when there is one, over that.
pub open spec fn layered(user: Option<TomlValue>, doc: TomlValue, local: Option<TomlValue>, v: TomlValue) -> bool {
    exists|b: TomlValue, mid: TomlValue|
        #![trigger merged(b, doc, mid)]
        base_layer(user, b) && merged(b, doc, mid) && deep_sorted(mid) && match local {
            None => v == mid,
            Some(l) => merged(mid, l, v),
        }
}

/// The layers merge to a document the schema checks find fault with, and
/// `c` is the one configuration error that lists their messages.
pub open spec fn rejected(
    user: Option<TomlValue>,
    doc: TomlValue,
    local: Option<TomlValue>,
    plugins: Seq<ProcessorPlugin>,
    analyzers: Seq<AnalyzerPlugin>,
    present: Seq<Seq<char>>,
    c: ErrorChain,
) -> bool {
    exists|v: TomlValue|
        #![trigger layered(user, doc, local, v)]
        layered(user, doc, local, v) && deep_sorted(v) && schema_errors(plugins, analyzers, v, present).len() > 0
            && is_config_error(c, invalid_config(schema_errors(plugins, analyzers, v, present)))
}

/// The message when only the local overlay exists.
pub open spec fn local_without_main() -> Seq<char> {
    "rsconstruct.local.toml found without rsconstruct.toml \u{2014} the local overlay only extends a main config file"@
}

/// The chain is one typed configuration error with message `m`.
pub open spec fn is_config_error(c: ErrorChain, m: Seq<char>) -> bool {
    c.links@.len() == 1 && c.links@[0] is Typed && c.links@[0]->Typed_0.exit_code == RsconstructExitCode::ConfigError
        && c.links@[0]->Typed_0.message@ == m
}

/// The chain is one untyped message `m`.
pub open spec fn is_message(c: ErrorChain, m: Seq<char>) -> bool {
    c.links@.len() == 1 && c.links@[0] is Message && c.links@[0]->Message_0@ == m
}

/// A deeply sorted document has the key order the schema checks read.
pub proof fn lemma_deep_sorted_raw(raw: TomlValue)
    requires
        deep_sorted(raw),
    ensures
        raw_sorted(raw),
{
    lemma_deep_sorted_table(raw);
    if let TomlValue::Table(top) = raw {
        let tv = table_view(top@);
        if tv.contains_key("plugins"@) {
            lemma_deep_sorted_entry(top@, "plugins"@);
            lemma_deep_sorted_table(tv["plugins"@]);
        }
        if tv.contains_key("processor"@) {
            lemma_deep_sorted_entry(top@, "processor"@);
            let p = tv["processor"@];
            lemma_deep_sorted_table(p);
            if let TomlValue::Table(e) = p {
                assert forall|i: int| 0 <= i < e@.len() implies section_sorted(#[trigger] e@[i].1) by {
                    lemma_deep_sorted_table(e@[i].1);
                    if let TomlValue::Table(sub) = e@[i].1 {
                        assert forall|j: int| 0 <= j < sub@.len() implies value_sorted(#[trigger] sub@[j].1) by {
                            lemma_deep_sorted_table(sub@[j].1);
                        }
                    }
                }
            }
        }
    }
}

/// The value a sorted table maps `key` to is one of its entries' values.
proof fn lemma_deep_sorted_entry(top: Seq<(String, TomlValue)>, key: Seq<char>)
    requires
        table_sorted(top),
        forall|i: int| 0 <= i < top.len() ==> deep_sorted(#[trigger] top[i].1),
        table_view(top).contains_key(key),
    ensures
        deep_sorted(table_view(top)[key]),
{
    let keys = crate::config::toml_value::entry_keys_of(top);
    assert(keys.contains(key));
    let i = choose|i: int| 0 <= i < keys.len() && keys[i] == key;
    assert(keys[i] == top[i].0@);
    lemma_table_entry(top, i);
}

/// A `[build]`-free check: the project file is there, or the message
/// saying how to create it (the local overlay alone is not enough).
pub fn require_config(config_exists: bool, local_exists: bool) -> (r: Result<(), RsconstructError>)
    ensures
        r is Ok <==> config_exists,
        !config_exists && local_exists ==> (r matches Err(e) && e.exit_code == RsconstructExitCode::ConfigError
            && e.message@ == "rsconstruct.local.toml found without rsconstruct.toml \u{2014} the local overlay only extends a main config file. Run 'rsconstruct init' to create one."@),
        !config_exists && !local_exists ==> (r matches Err(e) && e.exit_code == RsconstructExitCode::ConfigError
            && e.message@ == "No rsconstruct.toml found. Run 'rsconstruct init' to create one."@),
{
    if config_exists {
        Ok(())
    } else if local_exists {
        Err(
            config_error(
                "rsconstruct.local.toml found without rsconstruct.toml \u{2014} the local overlay only extends a main config file. Run 'rsconstruct init' to create one.",
            ),
        )
    } else {
        Err(config_error("No rsconstruct.toml found. Run 'rsconstruct init' to create one."))
    }
}

/// One file's document: its variables substituted, then parsed.
fn read_layer(content: &str, display: &str) -> (r: Result<TomlValue, String>)
    ensures
        match config_layer(content@, display@) {
            Ok(v) => (r matches Ok(x) && x == v && deep_sorted(x)),
            Err(m) => (r matches Err(e) && e@ == m),
        },
{
    let substituted: String = match substitute_variables(content) {
        Ok(s) => s,
        Err(e) => {
            let mut m: String = String::from_str("Failed to substitute variables in ");
            m.append(display);
            m.append(": ");
            m.append(e.message.as_str());
            return Err(m);
        },
    };
    match parse_toml_document(substituted.as_str()) {
        Ok(v) => Ok(v),
        Err(e) => {
            let mut m: String = String::from_str("Failed to parse config file ");
            m.append(display);
            m.append(": ");
            m.append(e.as_str());
            Err(m)
        },
    }
}

/// Both schema checks on the merged document: `Ok` when neither has a
/// message, else one configuration error listing all of them.
pub fn validate_raw_config(
    plugins: &[ProcessorPlugin],
    analyzers: &[AnalyzerPlugin],
    raw: &TomlValue,
    present: &Vec<String>,
) -> (r: Result<(), RsconstructError>)
    requires
        deep_sorted(*raw),
    ensures
        r is Ok <==> schema_errors(plugins@, analyzers@, *raw, strs(present@)).len() == 0,
        r matches Err(e) ==> e.exit_code == RsconstructExitCode::ConfigError && e.message@ == invalid_config(
            schema_errors(plugins@, analyzers@, *raw, strs(present@)),
        ),
{
    proof {
        lemma_deep_sorted_raw(*raw);
        lemma_deep_sorted_table(*raw);
    }
    let mut errors: Vec<String> = validate_processor_fields_raw(plugins, raw, present);
    let mut more: Vec<String> = validate_analyzer_fields_raw(analyzers, raw);
    let ghost e0 = errors@;
    let ghost m0 = more@;
    errors.append(&mut more);
    proof {
        assert(errors@ == e0 + m0);
        assert(strs(errors@) =~= strs(e0) + strs(m0));
    }
    if errors.len() == 0 {
        Ok(())
    } else {
        let mut m: String = String::from_str("Invalid config:\n");
        let listed: String = join_strings(&errors, "\n");
        m.append(listed.as_str());
        Err(config_error(m.as_str()))
    }
}

/// The raw configuration, before any section is read: with a project file,
/// the user-level document (`user`, if there is one) with the project's
/// document merged over it and the local overlay's merged over that, each
/// file's variables substituted on its own, then both schema checks; a
/// failure to substitute or parse names the file. Without a project file,
/// the user-level document as it is, and a local overlay alone is an
/// error.
pub fn load_raw_config(
    project: Option<&str>,
    local: Option<&str>,
    user: Option<TomlValue>,
    plugins: &[ProcessorPlugin],
    analyzers: &[AnalyzerPlugin],
    present: &Vec<String>,
) -> (r: Result<TomlValue, ErrorChain>)
    requires
        user matches Some(u) ==> deep_sorted(u),
    ensures
        r matches Ok(v) ==> deep_sorted(v),
        project is None && local is Some ==> (r matches Err(c) && is_message(c, local_without_main())),
        project is None && local is None ==> (r matches Ok(v) && base_layer(user, v)),
        project matches Some(p) ==> match config_layer(p@, CONFIG_FILE@) {
            Err(m) => (r matches Err(c) && is_config_error(c, m)),
            Ok(doc) => {
                let lres = match local {
                    Some(l) => Some(config_layer(l@, LOCAL_CONFIG_FILE@)),
                    None => None,
                };
                match lres {
                    Some(Err(m)) => (r matches Err(c) && is_config_error(c, m)),
                    _ => {
                        let ldoc = match lres {
                            Some(Ok(x)) => Some(x),
                            _ => None,
                        };
                        &&& r matches Ok(v) ==> layered(user, doc, ldoc, v) && schema_errors(
                            plugins@,
                            analyzers@,
                            v,
                            strs(present@),
                        ).len() == 0
                        &&& r matches Err(c) ==> rejected(user, doc, ldoc, plugins@, analyzers@, strs(present@), c)
                    },
                }
            },
        },
{
    let p: &str = match project {
        None => {
            if local.is_some() {
                return Err(
                    ErrorChain::message(
                        "rsconstruct.local.toml found without rsconstruct.toml \u{2014} the local overlay only extends a main config file",
                    ),
                );
            }
            return match user {
                Some(u) => Ok(u),
                None => Ok(TomlValue::Table(Vec::new())),
            };
        },
        Some(p) => p,
    };
    let doc: TomlValue = match read_layer(p, CONFIG_FILE) {
        Ok(v) => v,
        Err(m) => {
            return Err(ErrorChain::from_error(config_error(m.as_str())));
        },
    };
    assert(config_layer(p@, CONFIG_FILE@) == Ok::<TomlValue, Seq<char>>(doc));
    let mut raw: TomlValue = match user {
        Some(u) => u,
        None => TomlValue::Table(Vec::new()),
    };
    proof {
        if user is None {
            assert(deep_sorted(raw)) by {
                if let TomlValue::Table(e) = raw {
                    assert(crate::config::toml_value::entry_keys_of(e@) =~= Seq::<Seq<char>>::empty());
                }
            }
        }
    }
    let ghost base = raw;
    merge_toml_values(&mut raw, doc);
    let ghost mid = raw;
    let ghost mut ldoc_opt: Option<TomlValue> = None;
    match local {
        Some(l) => {
            let ldoc: TomlValue = match read_layer(l, LOCAL_CONFIG_FILE) {
                Ok(v) => v,
                Err(m) => {
                    return Err(ErrorChain::from_error(config_error(m.as_str())));
                },
            };
            proof {
                ldoc_opt = Some(ldoc);
            }
            merge_toml_values(&mut raw, ldoc);
            proof {
                assert(merged(base, doc, mid));
                assert(layered(user, doc, Some(ldoc), raw));
            }
        },
        None => {
            proof {
                assert(merged(base, doc, mid));
                assert(layered(user, doc, None, raw));
            }
        },
    }
    proof {
        assert(layered(user, doc, ldoc_opt, raw));
        assert(ldoc_opt == match local {
            Some(l) => Some(config_layer(l@, LOCAL_CONFIG_FILE@)->Ok_0),
            None => None::<TomlValue>,
        });
        if let Some(l) = local {
            assert(config_layer(l@, LOCAL_CONFIG_FILE@) is Ok);
        }
    }
    match validate_raw_config(plugins, analyzers, &raw, present) {
        Ok(()) => Ok(raw),
        Err(e) => {
            let c = ErrorChain::from_error(e);
            proof {
                assert(layered(user, doc, ldoc_opt, raw) && deep_sorted(raw) && is_config_error(
                    c,
                    invalid_config(schema_errors(plugins@, analyzers@, raw, strs(present@))),
                ));
                assert(rejected(user, doc, ldoc_opt, plugins@, analyzers@, strs(present@), c));
            }
            Err(c)
        },
    }
}

/// The top-level keys of the first `k` entries other than `build`, in
/// order.
pub open spec fn foreign_keys_upto(entries: Seq<(String, TomlValue)>, k: int) -> Seq<Seq<char>>
    decreases k,
{
    if k <= 0 || k > entries.len() {
        Seq::empty()
    } else if entries[k - 1].0@ == "build"@ {
        foreign_keys_upto(entries, k - 1)
    } else {
        foreign_keys_upto(entries, k - 1).push(entries[k - 1].0@)
    }
}

/// The top-level keys of a user-level document other than `build`, in the
/// document's key order; none for a value that is not a table.
pub open spec fn top_keys_other_than_build(v: TomlValue) -> Seq<Seq<char>> {
    match v {
        TomlValue::Table(entries) => foreign_keys_upto(entries@, entries@.len() as int),
        _ => Seq::empty(),
    }
}

/// The message for a user-level file with sections other than `[build]`.
pub open spec fn user_config_foreign_msg(display: Seq<char>, keys: Seq<Seq<char>>) -> Seq<char> {
    "Invalid user config "@ + display + ": only a [build] table is allowed here, found ["@ + join(keys, "], ["@)
        + "] — processors, analyzers and every other section belong in the repo's rsconstruct.toml, where CI sees them too"@
}

/// The user-level configuration layer read from `content` (the file shown
/// as `display`). Only a `[build]` table is accepted: a machine-wide file
/// that could add processors or change what a repository scans would make
/// the same repository build differently on two machines, and differently
/// from CI. A document that does not parse, or that holds any other
/// top-level key, is a configuration error.
pub fn user_config_layer(content: &str, display: &str) -> (r: Result<TomlValue, RsconstructError>)
    ensures
        match toml_parse(content@) {
            Err(m) => r matches Err(e) && e.exit_code == RsconstructExitCode::ConfigError && e.message@
                == "Failed to parse user config file "@ + display@ + ": "@ + m,
            Ok(v) => if top_keys_other_than_build(v).len() > 0 {
                r matches Err(e) && e.exit_code == RsconstructExitCode::ConfigError && e.message@
                    == user_config_foreign_msg(display@, top_keys_other_than_build(v))
            } else {
                r == Ok::<TomlValue, RsconstructError>(v) && deep_sorted(v)
            },
        },
{
    let raw: TomlValue = match parse_toml_document(content) {
        Ok(v) => v,
        Err(e) => {
            let mut m: String = String::from_str("Failed to parse user config file ");
            m.append(display);
            m.append(": ");
            m.append(e.as_str());
            return Err(config_error(m.as_str()));
        },
    };
    let mut foreign: Vec<String> = Vec::new();
    match &raw {
        TomlValue::Table(entries) => {
            let mut i: usize = 0;
            while i < entries.len()
                invariant
                    0 <= i <= entries.len(),
                    strs(foreign@) == foreign_keys_upto(entries@, i as int),
                decreases entries.len() - i,
            {
                if !str_eq(entries[i].0.as_str(), "build") {
                    let ghost before = strs(foreign@);
                    foreign.push(entries[i].0.clone());
                    proof {
                        assert(strs(foreign@) =~= before.push(entries@[i as int].0@));
                    }
                }
                i = i + 1;
            }
        },
        _ => {
            proof {
                assert(strs(foreign@) =~= Seq::<Seq<char>>::empty());
            }
        },
    }
    if foreign.len() > 0 {
        let mut m: String = String::from_str("Invalid user config ");
        m.append(display);
        m.append(": only a [build] table is allowed here, found [");
        let listed: String = join_strings(&foreign, "], [");
        m.append(listed.as_str());
        m.append(
            "] — processors, analyzers and every other section belong in the repo's rsconstruct.toml, where CI sees them too",
        );
        return Err(config_error(m.as_str()));
    }
    Ok(raw)
}

} // verus!
