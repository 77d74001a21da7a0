use rsconstruct::config::provenance::{FieldProvenance, ProvenanceMap, Section};
use rsconstruct::config::spans::{
    apply_spans_to_instance, build_global_span_map, build_span_map, byte_offset_to_line, global_provenance,
};

const SRC: &str = r#"[build]
output_dir = "build"
parallel = 4

[processor.ruff]
src_dirs = ["src"]
args = ["--fix"]

[processor.pylint.core]
src_dirs = ["src/core"]
"#;

#[test]
fn spans_capture_instance_fields() {
    let spans = build_span_map(SRC);
    let line = spans.get(Section::Processor, "ruff", "args").unwrap_or(0);
    assert!(line > 0, "expected a real line for ruff.args, got {line}");
}

#[test]
fn global_spans_capture_build_fields() {
    let src = "[build]\noutput_dir = \"build\"\nparallel = 4\n";
    let spans = build_global_span_map(src);
    assert_eq!(spans.get("build", "parallel"), Some(3), "expected parallel on line 3");
}

#[test]
fn span_lines_are_exact_and_named_instances_are_dotted() {
    let spans = build_span_map(SRC);
    assert_eq!(spans.get(Section::Processor, "ruff", "src_dirs"), Some(6));
    assert_eq!(spans.get(Section::Processor, "ruff", "args"), Some(7));
    assert_eq!(spans.get(Section::Processor, "pylint.core", "src_dirs"), Some(10));
    assert_eq!(spans.get(Section::Processor, "pylint", "core"), None);
    assert_eq!(spans.get(Section::Analyzer, "ruff", "args"), None);
    let global = build_global_span_map(SRC);
    assert_eq!(global.get("build", "output_dir"), Some(2));
    assert_eq!(global.get("processor", "ruff"), None);
}

#[test]
fn unparsable_file_has_no_spans() {
    assert_eq!(build_span_map("[processor.ruff\nargs = 1").get(Section::Processor, "ruff", "args"), None);
    assert_eq!(build_global_span_map("[build\n").get("build", "parallel"), None);
}

#[test]
fn byte_offsets_map_to_lines() {
    assert_eq!(byte_offset_to_line("a\nb\nc", 0), 1);
    assert_eq!(byte_offset_to_line("a\nb\nc", 2), 2);
    assert_eq!(byte_offset_to_line("a\nb\nc", 4), 3);
    assert_eq!(byte_offset_to_line("a\nb\nc", 99), 3);
    assert_eq!(byte_offset_to_line("\u{e9}\nx", 3), 2);
}

#[test]
fn spans_fill_in_only_unknown_user_lines() {
    let spans = build_span_map(SRC);
    let mut prov = ProvenanceMap::new();
    prov.insert("args", FieldProvenance::UserToml { line: 0 });
    prov.insert("src_dirs", FieldProvenance::UserToml { line: 42 });
    prov.insert("command", FieldProvenance::ProcessorDefault);
    apply_spans_to_instance(&mut prov, &spans, Section::Processor, "ruff");
    assert_eq!(prov.get("args"), Some(FieldProvenance::UserToml { line: 7 }));
    assert_eq!(prov.get("src_dirs"), Some(FieldProvenance::UserToml { line: 42 }));
    assert_eq!(prov.get("command"), Some(FieldProvenance::ProcessorDefault));
}

#[test]
fn global_provenance_marks_written_fields_and_defaults() {
    let spans = build_global_span_map(SRC);
    let sections = vec![
        ("build".to_string(), vec!["output_dir".to_string(), "parallel".to_string(), "max_arg_len".to_string()]),
        ("processor".to_string(), vec!["ruff".to_string()]),
        ("cache".to_string(), vec!["enabled".to_string()]),
    ];
    let out = global_provenance(&sections, &spans);
    assert_eq!(out.len(), 2);
    assert_eq!(out[0].0, "build");
    assert_eq!(out[0].1.get("parallel"), Some(FieldProvenance::UserToml { line: 3 }));
    assert_eq!(out[0].1.get("max_arg_len"), Some(FieldProvenance::SerdeDefault));
    assert_eq!(out[1].0, "cache");
    assert_eq!(out[1].1.get("enabled"), Some(FieldProvenance::SerdeDefault));
}
