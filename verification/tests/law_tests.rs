use rsconstruct::config::dependencies::DependenciesConfig;
use rsconstruct::config::processor_configs::StandardConfig;
use rsconstruct::executor::compute_parallel_levels;
use rsconstruct::file_index::FileIndex;
use rsconstruct::graph::BuildGraph;
use rsconstruct::object_store::{cache_entry_kind, CacheEntryKind};

fn s(x: &str) -> String {
    x.to_string()
}

#[test]
fn cache_entry_kinds() {
    assert_eq!(cache_entry_kind(0, false), CacheEntryKind::Marker);
    assert_eq!(cache_entry_kind(1, false), CacheEntryKind::Blob);
    assert_eq!(cache_entry_kind(2, false), CacheEntryKind::Tree);
    assert_eq!(cache_entry_kind(0, true), CacheEntryKind::Tree);
    assert_eq!(cache_entry_kind(1, true), CacheEntryKind::Tree);
}

#[test]
fn paths_of_other_products_are_foreign() {
    let mut g = BuildGraph::new();
    g.add_product(vec![s("a.md")], vec![s("out/a.html")], "pandoc", None).unwrap();
    g.add_product(vec![s("b.md")], vec![s("out/b.html")], "pandoc", None).unwrap();
    assert!(g.owned_by_other("out/a.html", 1));
    assert!(!g.owned_by_other("out/a.html", 0));
    assert!(!g.owned_by_other("out/c.html", 0));
}

#[test]
fn redeclaring_a_product_returns_its_id_and_changes_nothing() {
    let mut g = BuildGraph::new();
    let id = g.add_product(vec![s("a.c")], vec![s("a.o")], "cc", None).unwrap();
    let again = g.add_product(vec![s("a.c")], vec![s("a.o")], "cc", None).unwrap();
    assert_eq!(id, again);
    assert_eq!(g.products().len(), 1);
    let err = g.add_product(vec![s("b.c")], vec![s("a.o")], "cc", None);
    assert!(err.is_err());
    assert_eq!(g.products().len(), 1);
    assert_eq!(g.get_product(0).unwrap().inputs, vec![s("a.c")]);
}

#[test]
fn build_order_is_the_smallest_dependency_order() {
    let mut g = BuildGraph::new();
    g.add_product(vec![s("x.o")], vec![s("y")], "link", None).unwrap();
    g.add_product(vec![s("x.c")], vec![s("x.o")], "cc", None).unwrap();
    g.add_product(vec![s("z.c")], vec![], "check", None).unwrap();
    g.resolve_dependencies();
    assert_eq!(g.topological_sort().unwrap(), vec![1, 0, 2]);
}

#[test]
fn levels_are_non_empty_and_keep_the_order() {
    let mut g = BuildGraph::new();
    g.add_product(vec![s("a.c")], vec![s("a.o")], "cc", None).unwrap();
    g.add_product(vec![s("b.c")], vec![s("b.o")], "cc", None).unwrap();
    g.add_product(vec![s("a.o"), s("b.o")], vec![s("app")], "link", None).unwrap();
    g.resolve_dependencies();
    let order = g.topological_sort().unwrap();
    let levels = compute_parallel_levels(&g, &order);
    assert_eq!(levels, vec![vec![0, 1], vec![2]]);
    assert!(levels.iter().all(|l| !l.is_empty()));
}

#[test]
fn adding_known_virtual_files_again_adds_nothing() {
    let mut idx = FileIndex::from_paths(vec![s("a.c")]);
    let paths = vec![s("gen/b.c"), s("gen/c.c")];
    assert_eq!(idx.add_virtual_files(&paths), 2);
    assert_eq!(idx.add_virtual_files(&paths), 0);
    assert_eq!(idx.files().len(), 3);
}

#[test]
fn merged_pip_list_keeps_the_first_of_each_name() {
    let mut d = DependenciesConfig::default();
    d.pip = vec![s("Flask==2.0"), s("requests")];
    let merged = d.merge_with_pip(vec![s("flask"), s("requests[socks]"), s("REQUESTS")]);
    assert_eq!(merged, vec![s("Flask==2.0"), s("requests"), s("requests[socks]")]);
}

#[test]
fn dot_output_opens_closes_and_draws_every_edge() {
    let mut g = BuildGraph::new();
    g.add_product(vec![s("src/a.md")], vec![s("out/a.html")], "pandoc", None).unwrap();
    let dot = g.to_dot();
    assert!(dot.starts_with("digraph build_graph {\n    rankdir=LR;\n"));
    assert!(dot.ends_with('}'));
    assert!(dot.contains("    f_src_a_md -> proc_0;\n"));
    assert!(dot.contains("    proc_0 -> f_out_a_html;\n"));
}

#[test]
fn mermaid_output_starts_with_graph_and_draws_primary_input_edges() {
    let mut g = BuildGraph::new();
    g.add_product(vec![s("src/a.md"), s("style.css")], vec![s("out/a.html")], "pandoc", None).unwrap();
    let m = g.to_mermaid();
    assert!(m.starts_with("graph LR\n"));
    assert!(m.contains("    f_src_a_md --> proc_0"));
    assert!(m.contains("    proc_0 --> f_out_a_html"));
    assert!(!m.contains("f_style_css --> proc_0"));
    assert_eq!(m.trim_end(), m);
}

#[test]
fn scan_is_the_union_of_directory_queries() {
    let idx = FileIndex::from_paths(vec![s("src/a.c"), s("src/sub/b.c"), s("lib/c.c"), s("doc/d.md"), s("e.c")]);
    let mut cfg = StandardConfig::default();
    cfg.src_dirs = Some(vec![s("src"), s("lib")]);
    cfg.src_extensions = Some(vec![s(".c")]);
    cfg.src_exclude_dirs = Some(vec![]);
    cfg.src_exclude_files = Some(vec![]);
    cfg.src_exclude_paths = Some(vec![]);
    cfg.src_files = Some(vec![]);
    let found = idx.scan(&cfg, true);
    let mut union: Vec<String> = idx.query("src", &[".c"], &[], &[], &[], &[]);
    union.extend(idx.query("lib", &[".c"], &[], &[], &[], &[]));
    union.sort();
    union.dedup();
    assert_eq!(found, union);
    assert_eq!(found, vec![s("lib/c.c"), s("src/a.c"), s("src/sub/b.c")]);
    assert_eq!(idx.scan(&cfg, false), vec![s("lib/c.c"), s("src/a.c")]);
}
