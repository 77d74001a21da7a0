use rsconstruct::checksum::hex_encode;
use rsconstruct::config::output_config_hash;
use rsconstruct::config::registry::{
    all_type_names, checksum_fields_of, is_builtin_type, known_fields_for, processor_defaults_for, scan_defaults_for,
    ProcessorDefaults, ProcessorPlugin, ScanDefaultsData,
};
use rsconstruct::config::{FieldSpec, FieldType};
use rsconstruct::config_diff::JsonValue;
use rsconstruct::executor::compute_parallel_levels;
use rsconstruct::executor::policy::{BuildPolicy, IncrementalPolicy, ProductAction};
use rsconstruct::graph::BuildGraph;
use rsconstruct::object_store::{ExplainAction, RebuildReason};

fn s(x: &str) -> String {
    x.to_string()
}

fn config(args: &str, extra: &str) -> JsonValue {
    JsonValue::Object(vec![
        (s("args"), JsonValue::Array(vec![JsonValue::String(s(args))])),
        (s("command"), JsonValue::String(s("gcc"))),
        (s("extra"), JsonValue::Number(s(extra))),
    ])
}

#[test]
fn config_hash_covers_only_checksum_fields() {
    let h = output_config_hash(&config("-O2", "1"), &["command", "args"]);
    assert_eq!(h, "6b9fc47ad0004ab67537aa9b9c4cd1dfdf172182f9353fc4358e0cfdcdcb5db6");
    assert_eq!(h.len(), 64);
}

#[test]
fn config_hash_ignores_fields_outside_the_list() {
    let a = output_config_hash(&config("-O2", "1"), &["command", "args"]);
    let b = output_config_hash(&config("-O2", "2"), &["command", "args"]);
    assert_eq!(a, b);
}

#[test]
fn config_hash_changes_with_a_checksum_field() {
    let a = output_config_hash(&config("-O2", "1"), &["command", "args"]);
    let b = output_config_hash(&config("-O3", "1"), &["command", "args"]);
    assert_eq!(b, "ce29a3bebec913080596b8b650d33911e1e8b3de9bbee9c592d991a82fde8143");
    assert_ne!(a, b);
}

#[test]
fn config_hash_with_no_fields_hashes_an_empty_object() {
    let h = output_config_hash(&config("-O2", "1"), &[]);
    assert_eq!(h, "44136fa355b3678a1146ad16f7e8649e94fb4fc21fe77e8310c060f61caaff8a");
}

#[test]
fn config_hash_of_a_non_object_hashes_it_whole() {
    let h = output_config_hash(&JsonValue::Number(s("5")), &["command"]);
    assert_eq!(h, "ef2d127de37b942baad06145e54b0c619a1f22327b2ebbcfbec78f5564afe39d");
}

#[test]
fn graph_json_lists_products_with_dependencies() {
    let mut g = BuildGraph::new();
    g.add_product(vec![s("a.c")], vec![s("a.o")], "cc", None).unwrap();
    g.add_product(vec![s("a.o")], vec![s("app")], "link", None).unwrap();
    g.resolve_dependencies();
    let expected = r#"{
  "products": [
    {
      "depends_on": [],
      "id": 0,
      "inputs": [
        "a.c"
      ],
      "outputs": [
        "a.o"
      ],
      "processor": "cc"
    },
    {
      "depends_on": [
        0
      ],
      "id": 1,
      "inputs": [
        "a.o"
      ],
      "outputs": [
        "app"
      ],
      "processor": "link"
    }
  ]
}"#;
    assert_eq!(g.to_json(), expected);
}

#[test]
fn empty_graph_json_has_no_products() {
    let g = BuildGraph::new();
    assert_eq!(g.to_json(), "{\n  \"products\": []\n}");
}

#[test]
fn policy_decision_table() {
    let p = IncrementalPolicy;
    // Up to date: skipped whatever the cache could restore.
    assert_eq!(p.classify(false, false, false, false), ProductAction::Skip);
    assert_eq!(p.classify(false, false, false, true), ProductAction::Skip);
    // Stale but restorable: restored.
    assert_eq!(p.classify(false, false, true, true), ProductAction::Restore);
    // Stale and not restorable: built.
    assert_eq!(p.classify(false, false, true, false), ProductAction::Build);
    // A changed dependency or a forced build beats a matching descriptor
    // and a restorable cache.
    assert_eq!(p.classify(false, true, false, true), ProductAction::Build);
    assert_eq!(p.classify(true, false, false, true), ProductAction::Build);
    assert_eq!(p.classify(true, true, true, true), ProductAction::Build);
}

#[test]
fn policy_explains_a_forced_build() {
    let p = IncrementalPolicy;
    let outputs = vec![s("out.txt")];
    let r = p.explain(true, None, "cafe0123", &outputs, &vec![true], &vec![]);
    assert_eq!(r, ExplainAction::Rebuild(RebuildReason::Force));
    let r = p.explain(false, None, "cafe0123", &outputs, &vec![true], &vec![]);
    assert_eq!(r, ExplainAction::Rebuild(RebuildReason::NoCacheEntry));
}

#[test]
fn declared_outputs_are_owned_by_the_declaring_product() {
    let mut g = BuildGraph::new();
    let a = g.add_product(vec![s("a.md")], vec![s("a.html"), s("a.pdf")], "pandoc", None).unwrap();
    let b = g.add_product(vec![s("b.md")], vec![s("b.html")], "pandoc", None).unwrap();
    assert_eq!(g.path_owner("a.html"), Some(a));
    assert_eq!(g.path_owner("a.pdf"), Some(a));
    assert_eq!(g.path_owner("b.html"), Some(b));
    assert_eq!(g.path_owner("c.html"), None);
}

#[test]
fn level_is_one_past_the_highest_dependency() {
    let mut g = BuildGraph::new();
    let a = g.add_product(vec![s("a.src")], vec![s("a.o")], "cc", None).unwrap();
    let b = g.add_product(vec![s("a.o")], vec![s("b.o")], "cc", None).unwrap();
    let c = g.add_product(vec![s("a.o"), s("b.o")], vec![s("c.o")], "cc", None).unwrap();
    g.resolve_dependencies();
    let order = g.topological_sort().unwrap();
    let levels = compute_parallel_levels(&g, &order);
    // c depends on a (level 0) and b (level 1): it sits at level 2.
    assert_eq!(levels, vec![vec![a], vec![b], vec![c]]);
}

const FIX_FIELDS: &[FieldSpec] = &[
    FieldSpec { name: "fix", ty: FieldType::Bool, affects_output: true, required: false, doc: "Apply fixes" },
    FieldSpec { name: "quiet", ty: FieldType::Bool, affects_output: false, required: false, doc: "Less output" },
];

fn registry() -> Vec<ProcessorPlugin> {
    vec![
        ProcessorPlugin {
            name: "ruff",
            omit_standard_fields: &["args"],
            fields: FIX_FIELDS,
            scan_defaults: Some(ScanDefaultsData { src_dirs: &[], src_extensions: &[".py"], src_exclude_dirs: &[] }),
            defaults: Some(ProcessorDefaults {
                command: "ruff",
                dep_auto: &[],
                output_dir: "",
                formats: &[],
                args: &[],
                batch: None,
            }),
        },
        ProcessorPlugin { name: "cc", omit_standard_fields: &[], fields: &[], scan_defaults: None, defaults: None },
    ]
}

#[test]
fn builtin_types_are_the_listed_names() {
    let plugins = registry();
    let names = all_type_names(&plugins);
    for n in ["ruff", "cc", "lua", "ruff.core", ""] {
        assert_eq!(is_builtin_type(&plugins, n), names.contains(&n), "{n}");
        if scan_defaults_for(&plugins, n).is_some() || processor_defaults_for(&plugins, n).is_some() {
            assert!(is_builtin_type(&plugins, n));
        }
    }
}

#[test]
fn checksum_fields_of_an_instance_are_known_fields_of_its_type() {
    let plugins = registry();
    assert_eq!(checksum_fields_of(&plugins, "ruff.core"), checksum_fields_of(&plugins, "ruff"));
    assert_eq!(checksum_fields_of(&plugins, "ruff"), vec!["command", "fix"]);
    assert_eq!(checksum_fields_of(&plugins, "lua"), Vec::<&str>::new());
    let known = known_fields_for(&plugins, "ruff").unwrap();
    for f in checksum_fields_of(&plugins, "ruff") {
        assert!(known.contains(&f), "{f}");
    }
}

#[test]
fn hex_encoding_is_two_lower_case_digits_per_byte() {
    assert_eq!(hex_encode(&vec![0x00, 0xab, 0x7f, 0xff]), "00ab7fff");
    assert_eq!(hex_encode(&vec![]), "");
}
