use rsconstruct::config::analyzer::{validate_analyzer_fields_raw, AnalyzerPlugin};
use rsconstruct::config::dependencies::{normalized_distribution_name, parse_uv_export, requirement_extras};
use rsconstruct::config::instance::ProcessorConfig;
use rsconstruct::config::processor_configs::StandardConfig;
use rsconstruct::config::registry::{ProcessorDefaults, ProcessorPlugin, ScanDefaultsData};
use rsconstruct::config::toml_value::{merge_toml_values, value_to_toml_inline, TomlValue};
use rsconstruct::config::validation::validate_processor_fields_raw;
use rsconstruct::config::variables::{extract_var_names, remove_vars_section, substitute_variables};
use rsconstruct::config::{FieldSpec, FieldType, KnownFields, SectionShape, SCAN_CONFIG_FIELDS};

fn conv(v: &toml::Value) -> TomlValue {
    match v {
        toml::Value::String(s) => TomlValue::String(s.clone()),
        toml::Value::Integer(i) => TomlValue::Integer(*i),
        toml::Value::Float(x) => TomlValue::Float(x.to_string(), v.to_string()),
        toml::Value::Boolean(b) => TomlValue::Boolean(*b),
        toml::Value::Datetime(d) => TomlValue::Datetime(d.to_string()),
        toml::Value::Array(a) => TomlValue::Array(a.iter().map(conv).collect()),
        toml::Value::Table(t) => TomlValue::Table(t.iter().map(|(k, x)| (k.clone(), conv(x))).collect()),
    }
}

fn toml_of(s: &str) -> TomlValue {
    let v: toml::Value = toml::from_str(s).expect("test fixture must be valid TOML");
    conv(&v)
}

fn get<'a>(v: &'a TomlValue, key: &str) -> Option<&'a TomlValue> {
    match v {
        TomlValue::Table(e) => e.iter().find(|(k, _)| k == key).map(|(_, x)| x),
        _ => None,
    }
}

fn s(x: &str) -> TomlValue {
    TomlValue::String(x.to_string())
}

const PYLINT_FIELDS: &[FieldSpec] = &[];
const RUFF_FIELDS: &[FieldSpec] = &[FieldSpec {
    name: "fix",
    ty: FieldType::Bool,
    affects_output: false,
    required: false,
    doc: "Apply fixes",
}];

fn plugins() -> Vec<ProcessorPlugin> {
    vec![
        ProcessorPlugin {
            name: "pylint",
            omit_standard_fields: &[],
            fields: PYLINT_FIELDS,
            scan_defaults: Some(ScanDefaultsData { src_dirs: &[], src_extensions: &[".py"], src_exclude_dirs: &[] }),
            defaults: Some(ProcessorDefaults {
                command: "pylint",
                dep_auto: &[".pylintrc"],
                output_dir: "",
                formats: &[],
                args: &[],
                batch: None,
            }),
        },
        ProcessorPlugin {
            name: "ruff",
            omit_standard_fields: &[],
            fields: RUFF_FIELDS,
            scan_defaults: Some(ScanDefaultsData { src_dirs: &[], src_extensions: &[".py"], src_exclude_dirs: &[] }),
            defaults: Some(ProcessorDefaults {
                command: "ruff",
                dep_auto: &["ruff.toml"],
                output_dir: "",
                formats: &[],
                args: &[],
                batch: None,
            }),
        },
    ]
}

fn analyzers() -> Vec<AnalyzerPlugin> {
    vec![
        AnalyzerPlugin { name: "python", known_fields: &["enabled", "dep_inputs"] },
        AnalyzerPlugin { name: "cpp", known_fields: &["enabled", "include_paths", "dep_inputs"] },
    ]
}

// value_to_toml_inline

#[test]
fn value_to_toml_inline_string() {
    let value = s("hello");
    assert_eq!(value_to_toml_inline(&value), "\"hello\"");
}

#[test]
fn value_to_toml_inline_string_with_quotes() {
    let value = s("say \"hello\"");
    assert_eq!(value_to_toml_inline(&value), "\"say \\\"hello\\\"\"");
}

#[test]
fn value_to_toml_inline_string_with_backslash() {
    let value = s("path\\to\\file");
    assert_eq!(value_to_toml_inline(&value), "\"path\\\\to\\\\file\"");
}

#[test]
fn value_to_toml_inline_integer() {
    let value = TomlValue::Integer(42);
    assert_eq!(value_to_toml_inline(&value), "42");
}

#[test]
fn value_to_toml_inline_negative_integer() {
    let value = TomlValue::Integer(-123);
    assert_eq!(value_to_toml_inline(&value), "-123");
}

#[test]
fn value_to_toml_inline_float() {
    let value = conv(&toml::Value::Float(2.72));
    assert_eq!(value_to_toml_inline(&value), "2.72");
}

#[test]
fn value_to_toml_inline_boolean_true() {
    let value = TomlValue::Boolean(true);
    assert_eq!(value_to_toml_inline(&value), "true");
}

#[test]
fn value_to_toml_inline_boolean_false() {
    let value = TomlValue::Boolean(false);
    assert_eq!(value_to_toml_inline(&value), "false");
}

#[test]
fn value_to_toml_inline_array_of_strings() {
    let value = TomlValue::Array(vec![s("a"), s("b"), s("c")]);
    assert_eq!(value_to_toml_inline(&value), "[\"a\", \"b\", \"c\"]");
}

#[test]
fn value_to_toml_inline_array_of_integers() {
    let value = TomlValue::Array(vec![TomlValue::Integer(1), TomlValue::Integer(2), TomlValue::Integer(3)]);
    assert_eq!(value_to_toml_inline(&value), "[1, 2, 3]");
}

#[test]
fn value_to_toml_inline_empty_array() {
    let value = TomlValue::Array(vec![]);
    assert_eq!(value_to_toml_inline(&value), "[]");
}

#[test]
fn value_to_toml_inline_table() {
    let value = TomlValue::Table(vec![("key".to_string(), s("value"))]);
    assert_eq!(value_to_toml_inline(&value), "{ key = \"value\" }");
}

#[test]
fn value_to_toml_inline_never_emits_newlines() {
    let cases = vec![
        s("has\nnewline\rand\ttab"),
        TomlValue::Array(vec![s("a\nb"), TomlValue::Integer(2)]),
        TomlValue::Table(vec![("k".to_string(), s("v\nw"))]),
        TomlValue::Boolean(true),
        TomlValue::Integer(42),
    ];
    for case in cases {
        let out = value_to_toml_inline(&case);
        assert!(!out.contains('\n') && !out.contains('\r'), "line break for {case:?}: {out:?}");
    }
}

// remove_vars_section

#[test]
fn remove_vars_section_basic() {
    let content = "[vars]\nfoo = \"bar\"\n\n[other]\nkey = \"value\"\n";
    let result = remove_vars_section(content);
    assert!(!result.contains("[vars]"));
    assert!(!result.contains("foo = \"bar\""));
    assert!(result.contains("[other]"));
    assert!(result.contains("key = \"value\""));
}

#[test]
fn remove_vars_section_at_end() {
    let content = "[other]\nkey = \"value\"\n\n[vars]\nfoo = \"bar\"\n";
    let result = remove_vars_section(content);
    assert!(!result.contains("[vars]"));
    assert!(!result.contains("foo = \"bar\""));
    assert!(result.contains("[other]"));
    assert!(result.contains("key = \"value\""));
}

#[test]
fn remove_vars_section_no_vars() {
    let content = "[other]\nkey = \"value\"\n";
    let result = remove_vars_section(content);
    assert_eq!(result, "[other]\nkey = \"value\"\n");
}

#[test]
fn remove_vars_section_multiple_vars() {
    let content = "[vars]\nfoo = \"bar\"\nbaz = [1, 2, 3]\n\n[other]\nkey = \"value\"\n";
    let result = remove_vars_section(content);
    assert!(!result.contains("[vars]"));
    assert!(!result.contains("foo = \"bar\""));
    assert!(!result.contains("baz = [1, 2, 3]"));
    assert!(result.contains("[other]"));
}

#[test]
fn remove_vars_section_preserves_line_numbers() {
    let content = "[vars]\nfoo = \"bar\"\n\n[other]\nkey = \"value\"\n";
    let result = remove_vars_section(content);
    let lines: Vec<&str> = result.lines().collect();
    assert_eq!(lines.len(), 5, "line count must be unchanged");
    assert_eq!(lines[3], "[other]", "[other] must stay on line 4");
    assert_eq!(lines[4], "key = \"value\"", "key must stay on line 5");
}

#[test]
fn remove_vars_section_preserves_line_count() {
    let content = "[vars]\na = \"1\"\nb = \"2\"\n\n[processor.ruff]\nsrc_dirs = [\"src\"]\n";
    let before = content.lines().count();
    let result = remove_vars_section(content);
    assert_eq!(result.lines().count(), before, "vars removal must not shift lines");
    assert!(!result.contains("[vars]"), "the section header must be gone");
    let lines: Vec<&str> = result.lines().collect();
    assert_eq!(lines[4], "[processor.ruff]", "line 5 moved: {lines:?}");
}

// substitute_variables

#[test]
fn substitute_variables_nested_reference_any_order() {
    let content = "[vars]\nb = \"x\"\nz = \"${b}\"\n\n[other]\nkey = \"${z}\"\n";
    let result = substitute_variables(content).unwrap();
    assert!(result.contains("key = \"x\""), "nested var must resolve: {result}");
    assert!(!result.contains("${"), "no raw references may remain: {result}");
}

#[test]
fn substitute_variables_cycle_errors() {
    let content = "[vars]\na = \"${b}\"\nb = \"${a}\"\n\n[other]\nkey = \"${a}\"\n";
    let err = substitute_variables(content).unwrap_err();
    assert!(err.to_string().contains("cycle"), "should mention cycle: {}", err.to_string());
}

#[test]
fn substitute_variables_ignores_comments() {
    let content = "# example: x = \"${my_var}\"\n[other]\nkey = \"value\"\n";
    let result = substitute_variables(content).unwrap();
    assert!(result.contains("key = \"value\""));
}

#[test]
fn line_preservation_invariant_holds() {
    let content = "[vars]\n\
dirs = [\"a\", \"b\", \"c\"]\n\
multiline = \"one\\ntwo\\nthree\"\n\
tbl = { x = 1, y = 2 }\n\
\n\
[processor.ruff]\n\
src_dirs = \"${dirs}\"\n\
note = \"${multiline}\"\n\
opts = \"${tbl}\"\n";
    let before = content.lines().count();
    let result = substitute_variables(content).unwrap();
    assert_eq!(result.lines().count(), before, "substitution changed the line count:\n{result}");
    let lines: Vec<&str> = result.lines().collect();
    assert!(lines[6].contains("[\"a\", \"b\", \"c\"]"), "line 7 was: {}", lines[6]);
    assert!(!lines[7].contains('\n'), "embedded newline leaked into the output");
    assert!(lines[7].contains("\\n"), "newlines must be escaped, line 8 was: {}", lines[7]);
}

#[test]
fn substitute_variables_string() {
    let content = "[vars]\nmy_dir = \"templates\"\n\n[processor]\nsome_field = \"${my_dir}\"\n";
    let result = substitute_variables(content).expect("variable substitution failed");
    assert!(result.contains("some_field = \"templates\""));
    assert!(!result.contains("${my_dir}"));
    assert!(!result.contains("[vars]"));
}

#[test]
fn substitute_variables_array() {
    let content = "[vars]\nexcludes = [\"/a/\", \"/b/\"]\n\n[processor]\nsrc_exclude_dirs = \"${excludes}\"\n";
    let result = substitute_variables(content).expect("variable substitution failed");
    assert!(result.contains("src_exclude_dirs = [\"/a/\", \"/b/\"]"));
    assert!(!result.contains("${excludes}"));
}

#[test]
fn substitute_variables_multiple_uses() {
    let content = "[vars]\nval = \"shared\"\n\n[a]\nx = \"${val}\"\n\n[b]\ny = \"${val}\"\n";
    let result = substitute_variables(content).expect("variable substitution failed");
    assert!(result.contains("x = \"shared\""));
    assert!(result.contains("y = \"shared\""));
}

#[test]
fn substitute_variables_no_vars_section() {
    let content = "[processor]\nsome_field = \"src\"\n";
    let result = substitute_variables(content).expect("variable substitution failed");
    assert_eq!(result, content);
}

#[test]
fn substitute_variables_undefined_error() {
    let content = "[processor]\nsome_field = \"${undefined}\"\n";
    let result = substitute_variables(content);
    assert!(result.is_err());
    let err = result.unwrap_err().to_string();
    assert!(err.contains("Undefined variable"));
    assert!(err.contains("undefined"));
}

#[test]
fn substitute_variables_undefined_with_vars_section() {
    let content = "[vars]\nfoo = \"bar\"\n\n[processor]\nx = \"${foo}\"\ny = \"${missing}\"\n";
    let result = substitute_variables(content);
    assert!(result.is_err());
    let err = result.unwrap_err().to_string();
    assert!(err.contains("missing"));
}

#[test]
fn substitute_variables_integer() {
    let content = "[vars]\ncount = 42\n\n[processor]\nvalue = \"${count}\"\n";
    let result = substitute_variables(content).expect("variable substitution failed");
    assert!(result.contains("value = 42"));
}

#[test]
fn substitute_variables_boolean() {
    let content = "[vars]\nenabled = true\n\n[processor]\nflag = \"${enabled}\"\n";
    let result = substitute_variables(content).expect("variable substitution failed");
    assert!(result.contains("flag = true"));
}

#[test]
fn substitute_variables_rejects_partial_references() {
    let content = "[vars]\nbase = \"proj\"\n\n[processor.tera]\nsrc_dirs = [\"${base}/src\"]\n";
    let err = substitute_variables(content).unwrap_err();
    assert!(err.to_string().contains("entire quoted value"), "got: {}", err.to_string());
}

#[test]
fn substitute_variables_rejects_partial_undefined_references() {
    let content = "[processor.tera]\nsrc_dirs = [\"${nope}/src\"]\n";
    let err = substitute_variables(content).unwrap_err();
    assert!(err.to_string().contains("Unresolved variable reference"), "got: {}", err.to_string());
}

// extract_var_names

fn sorted_var_names(content: &str) -> Vec<String> {
    let mut names = extract_var_names(content);
    names.sort();
    names
}

#[test]
fn extract_var_names_basic() {
    let content = "[vars]\nfoo = \"bar\"\nbaz = [1, 2]\n\n[other]\nkey = \"value\"\n";
    assert_eq!(sorted_var_names(content), vec!["baz", "foo"]);
}

#[test]
fn extract_var_names_ignores_equals_inside_array_items() {
    let content = "[vars]\npatterns = [\n  \"a=b\",\n  \"c=d\",\n]\nreal = \"x\"\n";
    assert_eq!(sorted_var_names(content), vec!["patterns", "real"]);
}

#[test]
fn equals_in_array_item_does_not_define_a_variable() {
    let content = "[vars]\npatterns = [\n  \"a=b\",\n]\n\n[processor.tera]\nsrc_dirs = [\"${a}\"]\n";
    let err = substitute_variables(content).unwrap_err().to_string();
    assert!(err.contains("Undefined variable"), "expected undefined-variable error, got: {err}");
}

#[test]
fn extract_var_names_no_vars_section() {
    let content = "[other]\nkey = \"value\"\n";
    let names = extract_var_names(content);
    assert!(names.is_empty());
}

#[test]
fn extract_var_names_empty_vars_section() {
    let content = "[vars]\n\n[other]\nkey = \"value\"\n";
    let names = extract_var_names(content);
    assert!(names.is_empty());
}

#[test]
fn extract_var_names_with_comments() {
    let content = "[vars]\n# This is a comment\nfoo = \"bar\"\n# Another comment\nbaz = 42\n";
    assert_eq!(sorted_var_names(content), vec!["baz", "foo"]);
}

#[test]
fn extract_var_names_with_whitespace() {
    let content = "[vars]\n  foo   =   \"bar\"\n\tbaz\t=\t42\n";
    assert_eq!(sorted_var_names(content), vec!["baz", "foo"]);
}

// the config validators

#[test]
fn analyzer_validator_accepts_known_fields() {
    let raw = toml_of("[analyzer.python]\nenabled = false\n");
    let errors = validate_analyzer_fields_raw(&analyzers(), &raw);
    assert!(errors.is_empty(), "unexpected errors: {errors:?}");
}

#[test]
fn analyzer_validator_accepts_empty_section() {
    let raw = toml_of("[analyzer.python]\n");
    let errors = validate_analyzer_fields_raw(&analyzers(), &raw);
    assert!(errors.is_empty(), "unexpected errors: {errors:?}");
}

#[test]
fn analyzer_validator_rejects_unknown_type() {
    let raw = toml_of("[analyzer.nonsense]\n");
    let errors = validate_analyzer_fields_raw(&analyzers(), &raw);
    assert_eq!(errors.len(), 1);
    assert!(errors[0].contains("nonsense"));
    assert!(errors[0].contains("unknown analyzer type"));
}

#[test]
fn analyzer_validator_rejects_unknown_field() {
    let raw = toml_of("[analyzer.python]\nenabeld = false\n");
    let errors = validate_analyzer_fields_raw(&analyzers(), &raw);
    assert_eq!(errors.len(), 1);
    assert!(errors[0].contains("enabeld"));
    assert!(errors[0].contains("unknown field"));
    assert!(errors[0].contains("enabled"));
}

#[test]
fn analyzer_validator_collects_multiple_errors() {
    let raw = toml_of("\n[analyzer.python]\nenabeld = false\n\n[analyzer.nonsense]\n");
    let errors = validate_analyzer_fields_raw(&analyzers(), &raw);
    assert!(errors.len() >= 2, "expected multiple errors, got: {errors:?}");
    assert!(errors.iter().any(|e| e.contains("enabeld")));
    assert!(errors.iter().any(|e| e.contains("nonsense")));
}

#[test]
fn analyzer_validator_handles_multi_instance() {
    let raw = toml_of(
        "\n[analyzer.cpp.kernel]\ninclude_paths = [\"kernel/include\"]\n\n[analyzer.cpp.userspace]\ntypo_field = true\n",
    );
    let errors = validate_analyzer_fields_raw(&analyzers(), &raw);
    assert_eq!(errors.len(), 1);
    assert!(errors[0].contains("typo_field"));
    assert!(errors[0].contains("analyzer.cpp.userspace"));
}

#[test]
fn analyzer_validator_is_noop_without_analyzer_section() {
    let raw = toml_of("[processor.ruff]\nsrc_dirs = [\".\"]\n");
    let errors = validate_analyzer_fields_raw(&analyzers(), &raw);
    assert!(errors.is_empty());
}

#[test]
fn processor_and_analyzer_validators_are_independent() {
    let raw = toml_of("\n[processor.ruff]\nunknown_proc_field = \"x\"\n\n[analyzer.python]\nenabeld = false\n");
    let proc_errors = validate_processor_fields_raw(&plugins(), &raw, &vec![]);
    let analyzer_errors = validate_analyzer_fields_raw(&analyzers(), &raw);
    assert!(!proc_errors.is_empty(), "processor validator should have caught something");
    assert!(!analyzer_errors.is_empty(), "analyzer validator should have caught something");
}

// merge_toml_values

#[test]
fn merge_tables_recursively() {
    let mut base = toml_of("[processor.mypy]\nsrc_dirs = [\"src\"]\nbatch = true\n");
    let overlay = toml_of("[processor.mypy]\nbatch = false\n");
    merge_toml_values(&mut base, overlay);
    let mypy = get(get(&base, "processor").unwrap(), "mypy").unwrap();
    match get(mypy, "src_dirs").unwrap() {
        TomlValue::Array(a) => assert_eq!(a.len(), 1),
        other => panic!("not an array: {other:?}"),
    }
    assert!(matches!(get(mypy, "batch"), Some(TomlValue::Boolean(false))));
}

#[test]
fn merge_arrays_replace_wholesale() {
    let mut base = toml_of("[processor.ruff]\nsrc_dirs = [\"src\", \"config\"]\n");
    let overlay = toml_of("[processor.ruff]\nsrc_dirs = [\"scripts\"]\n");
    merge_toml_values(&mut base, overlay);
    let dirs = get(get(get(&base, "processor").unwrap(), "ruff").unwrap(), "src_dirs").unwrap();
    assert_eq!(value_to_toml_inline(dirs), "[\"scripts\"]");
}

#[test]
fn merge_adds_overlay_only_sections() {
    let mut base = toml_of("[processor.tera]\n");
    let overlay = toml_of("[dependencies]\npip = [\"requests\"]\n\n[processor.ruff]\nsrc_dirs = [\"src\"]\n");
    merge_toml_values(&mut base, overlay);
    assert!(get(&base, "dependencies").is_some());
    assert!(get(get(&base, "processor").unwrap(), "tera").is_some());
    assert!(get(get(&base, "processor").unwrap(), "ruff").is_some());
}

#[test]
fn merge_scalar_replaces_scalar() {
    let mut base = toml_of("[build]\noutput_dir = \"out\"\n");
    let overlay = toml_of("[build]\noutput_dir = \"dist\"\n");
    merge_toml_values(&mut base, overlay);
    match get(get(&base, "build").unwrap(), "output_dir") {
        Some(TomlValue::String(x)) => assert_eq!(x, "dist"),
        other => panic!("unexpected: {other:?}"),
    }
}

// section shapes

fn classify(toml_src: &str) -> SectionShape {
    let value = toml_of(toml_src);
    let table = match get(get(&value, "processor").unwrap(), "pylint").unwrap() {
        TomlValue::Table(t) => t,
        other => panic!("not a table: {other:?}"),
    };
    ProcessorConfig::classify_section(&plugins(), "pylint", table)
}

#[test]
fn section_with_config_fields_is_single_instance() {
    assert_eq!(classify("[processor.pylint]\nargs = [\"--x\"]\n"), SectionShape::SingleInstance);
}

#[test]
fn section_with_only_subtables_is_multi_instance() {
    assert_eq!(
        classify("[processor.pylint.core]\nargs = [\"--x\"]\n\n[processor.pylint.tests]\nargs = [\"--y\"]\n"),
        SectionShape::MultiInstance,
    );
}

#[test]
fn empty_section_is_single_instance() {
    assert_eq!(classify("[processor.pylint]\n"), SectionShape::SingleInstance);
}

#[test]
fn instance_named_after_a_config_field_is_ambiguous() {
    let shape = classify("[processor.pylint.args]\nargs = [\"--x\"]\n\n[processor.pylint.other]\nargs = [\"--y\"]\n");
    match shape {
        SectionShape::Ambiguous { colliding } => {
            assert_eq!(colliding, vec!["args"]);
        },
        other => panic!("expected Ambiguous, got {other:?}"),
    }
}

#[test]
fn instance_named_after_a_scan_field_is_ambiguous() {
    let shape = classify("[processor.pylint.src_dirs]\nargs = [\"--x\"]\n\n[processor.pylint.other]\nargs = [\"--y\"]\n");
    assert!(matches!(shape, SectionShape::Ambiguous { .. }), "got {shape:?}");
}

#[test]
fn mixed_scalar_and_table_values_are_single_instance() {
    assert_eq!(
        classify("[processor.pylint]\nargs = [\"--x\"]\n\n[processor.pylint.core]\nargs = [\"--y\"]\n"),
        SectionShape::SingleInstance,
    );
}

#[test]
fn required_tools_is_a_known_standard_field() {
    assert!(
        StandardConfig::known_fields().contains(&"required_tools"),
        "required_tools must be a known field or the validator rejects it"
    );
}

// python dependencies

#[test]
fn normalized_distribution_name_strips_specifiers_extras_markers() {
    let norm = normalized_distribution_name;
    assert_eq!(norm("Flask"), "flask");
    assert_eq!(norm("types_PyYAML"), "types-pyyaml");
    assert_eq!(norm("ruamel.yaml"), "ruamel-yaml");
    assert_eq!(norm("requests>=2.0"), "requests");
    assert_eq!(norm("uvicorn[standard]==0.30"), "uvicorn");
    assert_eq!(norm("tomli; python_version < \"3.11\""), "tomli");
    assert_eq!(norm("A.-_b"), "a-b");
}

#[test]
fn requirement_extras_parses_and_normalizes() {
    let ex = requirement_extras;
    assert_eq!(ex("manim-voiceover[gtts]"), "gtts");
    assert_eq!(ex("uvicorn[standard,Watchfiles]>=0.30"), "standard,watchfiles");
    assert_eq!(ex("uvicorn[watchfiles, standard]"), "standard,watchfiles");
    assert_eq!(ex("flask"), "");
}

#[test]
fn parse_uv_export_keeps_requirements_with_markers_drops_noise() {
    let out = "\
# This file was autogenerated by uv.
-e .
flask==3.1.0
pywin32==312 ; sys_platform == 'win32'

--index-url https://pypi.org/simple
werkzeug==3.1.3
";
    assert_eq!(
        parse_uv_export(out),
        vec!["flask==3.1.0", "pywin32==312 ; sys_platform == 'win32'", "werkzeug==3.1.3"]
    );
}

// Schema: the plugin field specs must be well-formed.

#[test]
fn every_field_spec_is_well_formed() {
    let mut bad: Vec<String> = Vec::new();
    for plugin in plugins() {
        let mut seen: std::collections::HashSet<&str> = std::collections::HashSet::new();
        for spec in plugin.fields {
            if spec.name.is_empty() {
                bad.push(format!("{}: empty field name", plugin.name));
            }
            if spec.doc.is_empty() {
                bad.push(format!("{}.{}: empty doc", plugin.name, spec.name));
            }
            if !seen.insert(spec.name) {
                bad.push(format!("{}.{}: duplicate FieldSpec", plugin.name, spec.name));
            }
            if SCAN_CONFIG_FIELDS.contains(&spec.name) {
                bad.push(format!("{}.{}: FieldSpec shadows a scan field", plugin.name, spec.name));
            }
        }
        for omitted in plugin.omit_standard_fields {
            if !StandardConfig::known_fields().contains(omitted) {
                bad.push(format!("{}: omit_standard_fields names non-standard field '{omitted}'", plugin.name));
            }
        }
    }
    bad.sort();
    assert!(bad.is_empty(), "malformed FieldSpec entries: {bad:#?}");
}
