use std::collections::HashSet;

use rsconstruct::deps_cache::{key_for, parse_key};
use rsconstruct::download::curl_argv;
use rsconstruct::executor::{batch_chunk_size, compute_parallel_levels, has_failed_dependency, should_batch};
use rsconstruct::exit_code::{classify_error, ErrorChain, RsconstructError, RsconstructExitCode};
use rsconstruct::file_index::FileIndex;
use rsconstruct::graph::BuildGraph;

// deps cache keys

#[test]
fn key_and_parse_roundtrip() {
    let key = key_for("python", "src/foo/bar.py");
    assert_eq!(key, "python\0src/foo/bar.py");
    let (analyzer, path) = parse_key(&key).expect("must parse");
    assert_eq!(analyzer, "python");
    assert_eq!(path, "src/foo/bar.py");
}

#[test]
fn keys_differ_by_analyzer() {
    let k1 = key_for("python", "foo.py");
    let k2 = key_for("mypy", "foo.py");
    assert_ne!(k1, k2);
}

#[test]
fn keys_differ_by_instance_name() {
    let k1 = key_for("cpp.kernel", "foo.c");
    let k2 = key_for("cpp.userspace", "foo.c");
    assert_ne!(k1, k2);
}

#[test]
fn parse_rejects_key_without_separator() {
    assert!(parse_key("just/a/path.py").is_none());
}

#[test]
fn parse_handles_path_with_colons() {
    let key = key_for("cpp", "src/a:b.c");
    let (analyzer, path) = parse_key(&key).unwrap();
    assert_eq!(analyzer, "cpp");
    assert_eq!(path, "src/a:b.c");
}

// download

#[test]
fn curl_argv_includes_retry_flags() {
    let argv = curl_argv("https://example.com/x.gz", "/tmp/x.dl");
    assert!(argv.contains(&"--retry".to_string()));
    assert!(argv.contains(&"--retry-connrefused".to_string()));
    assert!(argv.contains(&"--retry-all-errors".to_string()));
    assert!(argv.contains(&"--connect-timeout".to_string()));
}

#[test]
fn curl_argv_puts_url_last_and_dest_after_o() {
    let argv = curl_argv("https://example.com/x.gz", "/tmp/x.dl");
    assert_eq!(argv[0], "curl");
    assert_eq!(argv.last().unwrap(), "https://example.com/x.gz");
    let o = argv.iter().position(|a| a == "-o").expect("-o present");
    assert_eq!(argv[o + 1], "/tmp/x.dl");
}

#[test]
fn no_total_transfer_timeout() {
    let argv = curl_argv("https://example.com/x.gz", "/tmp/x.dl");
    assert!(!argv.contains(&"--max-time".to_string()));
}

// batching

#[test]
fn batch_chunk_size_decision_table() {
    assert_eq!(batch_chunk_size(0, 7), 7, "0 means no limit");
    assert_eq!(batch_chunk_size(3, 7), 3, "explicit size wins");
    assert_eq!(batch_chunk_size(3, 2), 3, "size larger than group is harmless");
}

#[test]
fn batch_chunk_size_never_zero() {
    assert_eq!(batch_chunk_size(0, 0), 1);
}

#[test]
fn should_batch_requires_all_conditions() {
    assert!(should_batch(true, true, 2));
    assert!(!should_batch(true, true, 1), "one rebuilding item is not a batch");
    assert!(!should_batch(true, true, 0));
    assert!(!should_batch(true, false, 5), "processor must support batching");
    assert!(!should_batch(false, true, 5), "batch_size None disables batching entirely");
}

// scheduling

fn strings(v: &[&str]) -> Vec<String> {
    v.iter().map(|s| s.to_string()).collect()
}

#[test]
fn parallel_levels_diamond() {
    let mut graph = BuildGraph::new();
    let top = graph.add_product(strings(&["a.src"]), strings(&["a.o"]), "cc", None).unwrap();
    let left = graph.add_product(strings(&["a.o"]), strings(&["b.o"]), "cc", None).unwrap();
    let right = graph.add_product(strings(&["a.o"]), strings(&["c.o"]), "cc", None).unwrap();
    let bottom = graph.add_product(strings(&["b.o", "c.o"]), strings(&["d.o"]), "cc", None).unwrap();
    let lone = graph.add_product(strings(&["x.src"]), strings(&["x.o"]), "cc", None).unwrap();
    graph.resolve_dependencies();
    let order = graph.topological_sort().unwrap();

    let levels = compute_parallel_levels(&graph, &order);

    let sorted = |mut ids: Vec<usize>| {
        ids.sort_unstable();
        ids
    };

    assert_eq!(levels.len(), 3, "diamond plus a free node is three levels: {levels:?}");
    assert_eq!(sorted(levels[0].clone()), sorted(vec![top, lone]));
    assert_eq!(sorted(levels[1].clone()), sorted(vec![left, right]));
    assert_eq!(levels[2], vec![bottom]);
}

#[test]
fn parallel_levels_cover_all_products() {
    let mut g = BuildGraph::new();
    g.add_product(strings(&["a.src"]), strings(&["a.o"]), "cc", None).unwrap();
    g.add_product(strings(&["a.o"]), strings(&["b.o"]), "cc", None).unwrap();
    g.add_product(strings(&["free.src"]), strings(&["free.o"]), "cc", None).unwrap();
    g.resolve_dependencies();
    let order = g.topological_sort().unwrap();

    let levels = compute_parallel_levels(&g, &order);
    let mut all: Vec<usize> = levels.into_iter().flatten().collect();
    all.sort_unstable();
    assert_eq!(all, vec![0, 1, 2]);
}

#[test]
fn failed_dependency_is_direct_only() {
    let mut g = BuildGraph::new();
    let a = g.add_product(strings(&["a.src"]), strings(&["a.o"]), "cc", None).unwrap();
    let b = g.add_product(strings(&["a.o"]), strings(&["b.o"]), "cc", None).unwrap();
    let c = g.add_product(strings(&["b.o"]), strings(&["c.o"]), "cc", None).unwrap();
    g.resolve_dependencies();

    let failed: HashSet<usize> = [a].into();
    assert!(has_failed_dependency(&g, b, &failed), "b directly depends on failed a");
    assert!(!has_failed_dependency(&g, c, &failed), "c depends on a only through b; direct check must not see it");
    assert!(!has_failed_dependency(&g, a, &failed), "a has no dependencies");
}

// exit codes

#[test]
fn classify_rsconstruct_error_downcast() {
    let err = ErrorChain::from_error(RsconstructError::new(RsconstructExitCode::ConfigError, "bad config"));
    assert_eq!(classify_error(&err), RsconstructExitCode::ConfigError);

    let err = ErrorChain::from_error(RsconstructError::new(RsconstructExitCode::GraphError, "cycle"));
    assert_eq!(classify_error(&err), RsconstructExitCode::GraphError);
}

#[test]
fn classify_typed_error_survives_context_wrapping() {
    let err = ErrorChain::from_error(RsconstructError::new(RsconstructExitCode::ToolError, "tool gone"));
    let wrapped = err.context("while preflighting").context("during build");
    assert_eq!(classify_error(&wrapped), RsconstructExitCode::ToolError);
}

#[test]
fn classify_io_error_in_chain() {
    let err = ErrorChain::io("denied").context("Failed to write output");
    assert_eq!(classify_error(&err), RsconstructExitCode::IoError);
}

#[test]
fn classify_never_pattern_matches_messages() {
    for msg in [
        "tool output: unknown field `foo`",
        "tool output: operation interrupted",
        "tool output: cycle detected",
        "tool output: tool version mismatch",
        "something totally unexpected",
    ] {
        assert_eq!(
            classify_error(&ErrorChain::message(msg)),
            RsconstructExitCode::BuildError,
            "untyped message must default to BuildError: {msg}"
        );
    }
}

// file index

fn sample_index() -> FileIndex {
    FileIndex::from_paths(strings(&[
        "src/main.c",
        "src/lib.c",
        "src/util/helper.c",
        "tests/test_main.py",
        "tests/test_lib.py",
        "README.md",
        "Makefile",
        "out/build/app.o",
    ]))
}

fn file_name(p: &str) -> &str {
    p.rsplit('/').next().unwrap()
}

#[test]
fn contains_finds_existing_path() {
    let idx = sample_index();
    assert!(idx.contains("src/main.c"));
    assert!(idx.contains("README.md"));
}

#[test]
fn contains_rejects_missing_path() {
    let idx = sample_index();
    assert!(!idx.contains("nonexistent.c"));
    assert!(!idx.contains("src/missing.c"));
}

#[test]
fn has_extension_finds_existing() {
    let idx = sample_index();
    assert!(idx.has_extension(".c"));
    assert!(idx.has_extension(".py"));
    assert!(idx.has_extension(".md"));
}

#[test]
fn has_extension_rejects_missing() {
    let idx = sample_index();
    assert!(!idx.has_extension(".rs"));
    assert!(!idx.has_extension(".java"));
}

#[test]
fn query_filters_by_extension() {
    let idx = sample_index();
    let results = idx.query("", &[".c"], &[], &[], &[], &[]);
    assert_eq!(results.len(), 3);
    assert!(results.iter().all(|p| p.ends_with(".c")));
}

#[test]
fn query_filters_by_root() {
    let idx = sample_index();
    let results = idx.query("tests", &[".py"], &[], &[], &[], &[]);
    assert_eq!(results.len(), 2);
    assert!(results.iter().all(|p| p.starts_with("tests")));
}

#[test]
fn query_excludes_dirs() {
    let idx = sample_index();
    let results = idx.query("", &[".c", ".o"], &["/util/"], &[], &[], &[]);
    assert!(!results.iter().any(|p| p.contains("/util/")));
}

#[test]
fn query_excludes_files() {
    let idx = sample_index();
    let results = idx.query("", &[".c"], &[], &["lib.c"], &[], &[]);
    assert!(!results.iter().any(|p| file_name(p) == "lib.c"));
    assert!(results.iter().any(|p| file_name(p) == "main.c"));
}

#[test]
fn query_excludes_paths() {
    let idx = sample_index();
    let results = idx.query("", &[".c"], &[], &[], &["src/main.c"], &[]);
    assert!(!results.contains(&"src/main.c".to_string()));
    assert!(results.contains(&"src/lib.c".to_string()));
}

#[test]
fn query_empty_root_matches_all() {
    let idx = sample_index();
    let results = idx.query("", &[".md"], &[], &[], &[], &[]);
    assert_eq!(results, vec!["README.md".to_string()]);
}
