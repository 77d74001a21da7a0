use rsconstruct::config::analyzer::AnalyzerPlugin;
use rsconstruct::config::dependencies::{pyproject_python_deps, uv_lock_pinned_deps, DependenciesConfig, PipSource};
use rsconstruct::config::load::{load_raw_config, require_config, user_config_layer};
use rsconstruct::config::registry::ProcessorPlugin;
use rsconstruct::config::toml_value::TomlValue;
use rsconstruct::config::FieldSpec;
use rsconstruct::config_diff::{diff_configs, DiffLine};
use rsconstruct::exit_code::{classify_error, ErrorLink, RsconstructExitCode};

fn strings(v: &[&str]) -> Vec<String> {
    v.iter().map(|x| x.to_string()).collect()
}

fn get<'a>(v: &'a TomlValue, key: &str) -> Option<&'a TomlValue> {
    match v {
        TomlValue::Table(e) => e.iter().find(|(k, _)| k == key).map(|(_, x)| x),
        _ => None,
    }
}

fn outer_message(links: &[ErrorLink]) -> String {
    match &links[0] {
        ErrorLink::Typed(e) => e.to_string(),
        ErrorLink::Io(m) | ErrorLink::Message(m) => m.clone(),
    }
}

// pyproject.toml and uv.lock

#[test]
fn pyproject_python_deps_missing_file_is_empty() {
    let deps = pyproject_python_deps(None, "pyproject.toml").expect("missing file should not error");
    assert!(deps.is_empty());
}

const DEMO_PYPROJECT: &str = r#"
[project]
name = "demo"
dependencies = ["flask", "requests>=2.0"]

[project.optional-dependencies]
docs = ["sphinx"]

[dependency-groups]
dev = ["mypy", {include-group = "test"}]
test = ["pytest"]
"#;

#[test]
fn pyproject_python_deps_collects_all_sections() {
    let deps = pyproject_python_deps(Some(DEMO_PYPROJECT), "pyproject.toml").expect("should parse");
    let mut sorted = deps.clone();
    sorted.sort();
    assert_eq!(sorted, vec!["flask", "mypy", "pytest", "requests>=2.0", "sphinx"]);
    assert!(deps.contains(&"pytest".to_string()));
}

#[test]
fn pyproject_python_deps_keeps_section_order() {
    let deps = pyproject_python_deps(Some(DEMO_PYPROJECT), "pyproject.toml").unwrap();
    assert_eq!(deps, vec!["flask", "requests>=2.0", "sphinx", "mypy", "pytest"]);
}

#[test]
fn pyproject_python_deps_invalid_toml_errors() {
    let err = pyproject_python_deps(Some("not [ valid toml"), "proj/pyproject.toml").unwrap_err();
    assert_eq!(err.exit_code, RsconstructExitCode::ConfigError);
    assert!(err.to_string().starts_with("Failed to parse proj/pyproject.toml: "));
}

const DEMO_LOCK: &str = r#"
version = 1
requires-python = ">=3.14"

[[package]]
name = "demo"
version = "0.1.0"
source = { editable = "." }

[[package]]
name = "flask"
version = "3.1.0"
source = { registry = "https://pypi.org/simple" }

[[package]]
name = "gunicorn"
version = "23.0.0"
source = { registry = "https://pypi.org/simple" }
"#;

#[test]
fn uv_lock_pinned_deps_pins_registry_packages_and_skips_the_project() {
    let pins = uv_lock_pinned_deps(DEMO_LOCK, "uv.lock").expect("should parse");
    assert_eq!(pins, vec!["flask==3.1.0", "gunicorn==23.0.0"]);
}

#[test]
fn uv_lock_pinned_deps_rejects_unknown_source_kinds() {
    let lock = r#"
version = 1

[[package]]
name = "somelib"
version = "1.0.0"
source = { git = "https://example.com/somelib.git" }
"#;
    let err = uv_lock_pinned_deps(lock, "uv.lock").unwrap_err();
    assert_eq!(
        outer_message(&err.links),
        "uv.lock: package somelib has a source kind install-deps does not support (only registry packages and the project itself are understood)"
    );
    assert_eq!(classify_error(&err), RsconstructExitCode::BuildError);
}

#[test]
fn uv_lock_entry_without_name_or_version_is_an_error() {
    let no_name = "[[package]]\nversion = \"1\"\nsource = { registry = \"x\" }\n";
    let err = uv_lock_pinned_deps(no_name, "uv.lock").unwrap_err();
    assert_eq!(outer_message(&err.links), "uv.lock: package entry without a name");
    let no_version = "[[package]]\nname = \"a\"\nsource = { registry = \"x\" }\n";
    let err = uv_lock_pinned_deps(no_version, "uv.lock").unwrap_err();
    assert_eq!(outer_message(&err.links), "uv.lock: package a has no version");
}

#[test]
fn uv_lock_that_is_not_toml_is_a_config_error() {
    let err = uv_lock_pinned_deps("[[package", "uv.lock").unwrap_err();
    assert_eq!(classify_error(&err), RsconstructExitCode::ConfigError);
    assert!(outer_message(&err.links).starts_with("Failed to parse uv.lock: "));
}

fn deps_with(pip: &[&str], source: PipSource) -> DependenciesConfig {
    let mut d = DependenciesConfig::default();
    d.pip = strings(pip);
    d.pip_source = source;
    d
}

#[test]
fn effective_pip_pyproject_mode_merges_and_dedupes_by_normalized_name() {
    let pyproject = "[project]\nname = \"demo\"\ndependencies = [\"Flask\", \"gunicorn\"]\n";
    let declared = pyproject_python_deps(Some(pyproject), "pyproject.toml").unwrap();
    let deps = deps_with(&["flask==2.0", "types-requests"], PipSource::Pyproject);
    let merged = deps.effective_pip("pyproject.toml", "uv.lock", false, vec![], declared).expect("should merge");
    assert_eq!(merged, vec!["flask==2.0", "types-requests", "gunicorn"]);
}

#[test]
fn effective_pip_without_pyproject_is_pip_list() {
    let declared = pyproject_python_deps(None, "pyproject.toml").unwrap();
    let deps = deps_with(&["termcolor"], PipSource::UvLock);
    let merged = deps.effective_pip("pyproject.toml", "uv.lock", false, vec![], declared).expect("no pyproject is fine");
    assert_eq!(merged, vec!["termcolor"]);
}

#[test]
fn effective_pip_default_mode_installs_the_lock_closure() {
    let lock = r#"
version = 1

[[package]]
name = "demo"
version = "0.1.0"
source = { virtual = "." }

[[package]]
name = "flask"
version = "3.1.0"
source = { registry = "https://pypi.org/simple" }

[[package]]
name = "werkzeug"
version = "3.1.3"
source = { registry = "https://pypi.org/simple" }
"#;
    let pins = uv_lock_pinned_deps(lock, "uv.lock").unwrap();
    let declared = pyproject_python_deps(Some("[project]\nname = \"demo\"\ndependencies = [\"flask\"]\n"), "pyproject.toml").unwrap();
    let deps = deps_with(&["flask==2.0"], PipSource::UvLock);
    let merged = deps.effective_pip("pyproject.toml", "uv.lock", true, pins, declared).expect("should merge");
    assert_eq!(merged, vec!["flask==2.0", "werkzeug==3.1.3"]);
}

#[test]
fn effective_pip_default_mode_errors_without_a_lock() {
    let declared = pyproject_python_deps(Some("[project]\nname = \"demo\"\ndependencies = [\"flask\"]\n"), "pyproject.toml").unwrap();
    let deps = DependenciesConfig::default();
    let err = deps.effective_pip("pyproject.toml", "uv.lock", false, vec![], declared).unwrap_err();
    assert!(err.contains("uv lock"), "error should point at uv lock: {err}");
    assert!(err.contains("pip_source"), "error should mention the escape hatch: {err}");
}

#[test]
fn effective_pip_keeps_extras_variant_distinct_from_bare_name() {
    let pyproject = "[project]\nname = \"demo\"\ndependencies = [\"manim_voiceover\", \"manim-voiceover[gtts]\"]\n";
    let declared = pyproject_python_deps(Some(pyproject), "pyproject.toml").unwrap();
    let deps = deps_with(&[], PipSource::Pyproject);
    let merged = deps.effective_pip("pyproject.toml", "uv.lock", false, vec![], declared).expect("should merge");
    assert_eq!(merged, vec!["manim_voiceover", "manim-voiceover[gtts]"]);
}

#[test]
fn effective_pip_uv_merges_export_with_pip_overriding() {
    let declared = pyproject_python_deps(Some("[project]\nname = \"demo\"\ndependencies = [\"flask\"]\n"), "pyproject.toml").unwrap();
    let deps = deps_with(&["flask==2.0"], PipSource::UvLock);
    let exported = strings(&["flask==3.1.0", "pywin32==312 ; sys_platform == 'win32'"]);
    let merged = deps.effective_pip_uv("pyproject.toml", "uv.lock", true, exported, declared).expect("should merge");
    assert_eq!(merged, vec!["flask==2.0", "pywin32==312 ; sys_platform == 'win32'"]);
}

#[test]
fn effective_pip_uv_errors_without_a_lock() {
    let declared = pyproject_python_deps(Some("[project]\nname = \"demo\"\ndependencies = [\"flask\"]\n"), "pyproject.toml").unwrap();
    let deps = DependenciesConfig::default();
    let err = deps.effective_pip_uv("pyproject.toml", "uv.lock", false, vec![], declared).unwrap_err();
    assert!(err.contains("uv lock"), "error should point at uv lock: {err}");
}

// loading the raw configuration

const NO_FIELDS: &[FieldSpec] = &[];

fn ruff_only() -> Vec<ProcessorPlugin> {
    vec![ProcessorPlugin {
        name: "ruff",
        omit_standard_fields: &[],
        fields: NO_FIELDS,
        scan_defaults: None,
        defaults: None,
    }]
}

fn no_analyzers() -> Vec<AnalyzerPlugin> {
    Vec::new()
}

#[test]
fn require_config_messages() {
    assert!(require_config(true, false).is_ok());
    let e = require_config(false, false).unwrap_err();
    assert_eq!(e.to_string(), "No rsconstruct.toml found. Run 'rsconstruct init' to create one.");
    assert_eq!(e.exit_code, RsconstructExitCode::ConfigError);
    let e = require_config(false, true).unwrap_err();
    assert!(e.to_string().starts_with("rsconstruct.local.toml found without rsconstruct.toml"));
}

#[test]
fn local_overlay_replaces_arrays_and_keeps_other_keys() {
    let project = "[processor.ruff]\nsrc_dirs = [\"src\", \"config\"]\nbatch = true\n";
    let local = "[processor.ruff]\nsrc_dirs = [\"scripts\"]\n";
    let raw = load_raw_config(Some(project), Some(local), None, &ruff_only(), &no_analyzers(), &vec![]).expect("valid config");
    let ruff = get(get(&raw, "processor").unwrap(), "ruff").unwrap();
    match get(ruff, "src_dirs").unwrap() {
        TomlValue::Array(items) => {
            assert_eq!(items.len(), 1);
            assert!(matches!(&items[0], TomlValue::String(s) if s == "scripts"));
        },
        other => panic!("unexpected {other:?}"),
    }
    assert!(matches!(get(ruff, "batch"), Some(TomlValue::Boolean(true))));
}

#[test]
fn user_layer_sits_underneath_the_project_file() {
    let user = TomlValue::Table(vec![(
        "build".to_string(),
        TomlValue::Table(vec![
            ("output_dir".to_string(), TomlValue::String("user-out".to_string())),
            ("parallel".to_string(), TomlValue::Integer(8)),
        ]),
    )]);
    let project = "[build]\nparallel = 2\n";
    let raw = load_raw_config(Some(project), None, Some(user), &ruff_only(), &no_analyzers(), &vec![]).unwrap();
    let build = get(&raw, "build").unwrap();
    assert!(matches!(get(build, "parallel"), Some(TomlValue::Integer(2))));
    assert!(matches!(get(build, "output_dir"), Some(TomlValue::String(s)) if s == "user-out"));
}

#[test]
fn variables_are_substituted_per_file() {
    let project = "[vars]\nd = [\"src\"]\n[processor.ruff]\nsrc_dirs = \"${d}\"\n";
    let raw = load_raw_config(Some(project), None, None, &ruff_only(), &no_analyzers(), &vec![]).unwrap();
    let ruff = get(get(&raw, "processor").unwrap(), "ruff").unwrap();
    match get(ruff, "src_dirs") {
        Some(TomlValue::Array(items)) => assert!(matches!(&items[..], [TomlValue::String(s)] if s == "src")),
        other => panic!("unexpected {other:?}"),
    }
}

#[test]
fn unknown_processor_type_fails_with_invalid_config() {
    let project = "[processor.nosuch]\n";
    let err = load_raw_config(Some(project), None, None, &ruff_only(), &no_analyzers(), &vec![]).unwrap_err();
    assert_eq!(classify_error(&err), RsconstructExitCode::ConfigError);
    assert!(outer_message(&err.links).starts_with("Invalid config:\n"));
}

#[test]
fn unparsable_project_file_names_the_file() {
    let err = load_raw_config(Some("[build"), None, None, &ruff_only(), &no_analyzers(), &vec![]).unwrap_err();
    assert!(outer_message(&err.links).starts_with("Failed to parse config file rsconstruct.toml: "));
    let err = load_raw_config(Some("[build]\n"), Some("x = "), None, &ruff_only(), &no_analyzers(), &vec![]).unwrap_err();
    assert!(outer_message(&err.links).starts_with("Failed to parse config file rsconstruct.local.toml: "));
}

#[test]
fn undefined_variable_names_the_file() {
    let err = load_raw_config(Some("[build]\nx = \"${nope}\"\n"), None, None, &ruff_only(), &no_analyzers(), &vec![]).unwrap_err();
    assert!(outer_message(&err.links).starts_with("Failed to substitute variables in rsconstruct.toml: "));
}

#[test]
fn local_file_alone_is_an_error_and_no_files_give_the_user_layer() {
    let err = load_raw_config(None, Some("[build]\n"), None, &ruff_only(), &no_analyzers(), &vec![]).unwrap_err();
    assert_eq!(classify_error(&err), RsconstructExitCode::BuildError);
    assert!(outer_message(&err.links).contains("the local overlay only extends a main config file"));
    let raw = load_raw_config(None, None, None, &ruff_only(), &no_analyzers(), &vec![]).unwrap();
    assert!(matches!(raw, TomlValue::Table(ref e) if e.is_empty()));
}

// configuration diffs

#[test]
fn diff_of_identical_configs_is_none() {
    let j = r#"{"a": 1, "b": {"c": [true, null]}}"#;
    assert!(diff_configs(j, j).is_none());
}

#[test]
fn diff_lists_removed_changed_then_added_in_key_order() {
    let old = r#"{"z": "x", "args": ["-a", "-b"], "batch": true}"#;
    let new = r#"{"args": ["-a"], "batch": false, "new": 3}"#;
    let lines = diff_configs(old, new).expect("configs differ");
    assert_eq!(
        lines,
        vec![
            DiffLine::Removed("- args[1]: \"-b\"".to_string()),
            DiffLine::Removed("- batch: true".to_string()),
            DiffLine::Added("+ batch: false".to_string()),
            DiffLine::Removed("- z: \"x\"".to_string()),
            DiffLine::Added("+ new: 3".to_string()),
        ]
    );
}

#[test]
fn diff_of_unparsable_json_is_none() {
    assert!(diff_configs("{", "{}").is_none());
    assert!(diff_configs("{}", "nope").is_none());
}

#[test]
fn diff_flattens_nested_keys_with_dots() {
    let lines = diff_configs(r#"{"a": {"b": 1}}"#, r#"{"a": {"b": 2}}"#).unwrap();
    assert_eq!(lines, vec![DiffLine::Removed("- a.b: 1".to_string()), DiffLine::Added("+ a.b: 2".to_string())]);
}

// command-line overrides

use rsconstruct::config::overrides::apply_overrides;
use rsconstruct::config::instance::ProcessorInstance;
use rsconstruct::config::provenance::{FieldProvenance, ProvenanceMap};

fn ruff_instance(name: &str) -> ProcessorInstance {
    ProcessorInstance {
        instance_name: name.to_string(),
        proc_type: "ruff".to_string(),
        config_toml: TomlValue::Table(vec![]),
        provenance: ProvenanceMap::new(),
    }
}

#[test]
fn overrides_set_the_field_and_record_the_command_line() {
    let mut insts = vec![ruff_instance("ruff")];
    let r = apply_overrides(&ruff_only(), &mut insts, &strings(&["ruff.batch=false"]), &vec![]);
    assert!(r.is_ok());
    assert!(matches!(get(&insts[0].config_toml, "batch"), Some(TomlValue::Boolean(false))));
    assert_eq!(insts[0].provenance.get("batch"), Some(FieldProvenance::CliOverride));
}

#[test]
fn overrides_that_are_malformed_or_select_nothing_fail() {
    let mut insts = vec![ruff_instance("ruff")];
    let err = apply_overrides(&ruff_only(), &mut insts, &strings(&["ruffbatch"]), &vec![]).unwrap_err();
    assert_eq!(classify_error(&err), RsconstructExitCode::BuildError);
    let err = apply_overrides(&ruff_only(), &mut insts, &vec![], &strings(&["nosuch.batch=true"])).unwrap_err();
    assert_eq!(outer_message(&err.links), "no processor instance with pname 'nosuch'");
}

#[test]
fn user_config_with_only_build_is_a_layer() {
    let v = user_config_layer("[build]\nparallel = 2\n", "u.toml").unwrap();
    match &v {
        TomlValue::Table(e) => {
            assert_eq!(e.len(), 1);
            assert_eq!(e[0].0, "build");
        }
        other => panic!("unexpected {other:?}"),
    }
    let empty = user_config_layer("", "u.toml").unwrap();
    assert!(matches!(empty, TomlValue::Table(e) if e.is_empty()));
}

#[test]
fn user_config_rejects_other_sections_in_key_order() {
    let err = user_config_layer("[zeta]\n[build]\n[processor.ruff]\n", "/home/u/.config/rsconstruct/config.toml").unwrap_err();
    assert_eq!(err.exit_code, RsconstructExitCode::ConfigError);
    assert_eq!(
        err.message,
        "Invalid user config /home/u/.config/rsconstruct/config.toml: only a [build] table is allowed here, \
         found [processor], [zeta] — processors, analyzers and every other section belong in the repo's \
         rsconstruct.toml, where CI sees them too"
    );
}

#[test]
fn user_config_that_does_not_parse_is_a_config_error() {
    let err = user_config_layer("[build", "u.toml").unwrap_err();
    assert_eq!(err.exit_code, RsconstructExitCode::ConfigError);
    assert!(err.message.starts_with("Failed to parse user config file u.toml: "), "{}", err.message);
}

#[test]
fn user_config_layer_sits_under_the_project_file() {
    let user = user_config_layer("[build]\nparallel = 2\nretry = 1\n", "u.toml").unwrap();
    let raw = load_raw_config(Some("[build]\nparallel = 4\n"), None, Some(user), &[], &[], &Vec::new()).unwrap();
    let build = match &raw {
        TomlValue::Table(e) => e.iter().find(|(k, _)| k == "build").map(|(_, v)| v).unwrap(),
        other => panic!("unexpected {other:?}"),
    };
    match build {
        TomlValue::Table(e) => {
            assert!(e.iter().any(|(k, v)| k == "parallel" && matches!(v, TomlValue::Integer(4))));
            assert!(e.iter().any(|(k, v)| k == "retry" && matches!(v, TomlValue::Integer(1))));
        }
        other => panic!("unexpected {other:?}"),
    }
}
