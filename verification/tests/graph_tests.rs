use rsconstruct::exit_code::ErrorLink;
use rsconstruct::graph::{BuildGraph, Product};

fn s(x: &str) -> String {
    x.to_string()
}

#[test]
fn add_product_assigns_incrementing_ids() {
    let mut g = BuildGraph::new();
    let id0 = g.add_product(vec![s("a.c")], vec![s("a.o")], "cc", None).unwrap();
    let id1 = g.add_product(vec![s("b.c")], vec![s("b.o")], "cc", None).unwrap();
    assert_eq!(id0, 0);
    assert_eq!(id1, 1);
    assert_eq!(g.products().len(), 2);
}

#[test]
fn output_conflict_is_detected() {
    let mut g = BuildGraph::new();
    g.add_product(vec![s("a.c")], vec![s("out.o")], "cc", None).unwrap();
    let result = g.add_product(vec![s("b.c")], vec![s("out.o")], "cc", None);
    assert!(result.is_err());
    assert!(result.unwrap_err().to_string().contains("Output conflict"));
}

#[test]
fn topological_sort_no_dependencies() {
    let mut g = BuildGraph::new();
    g.add_product(vec![s("c.c")], vec![], "check", None).unwrap();
    g.add_product(vec![s("b.c")], vec![], "check", None).unwrap();
    g.add_product(vec![s("a.c")], vec![], "check", None).unwrap();
    g.resolve_dependencies();
    let order = g.topological_sort().unwrap();
    assert_eq!(order.len(), 3);
    let mut sorted = order;
    sorted.sort_unstable();
    assert_eq!(sorted, vec![0, 1, 2]);
}

#[test]
fn topological_sort_respects_dependencies() {
    let mut g = BuildGraph::new();
    g.add_product(vec![s("lib.c")], vec![s("lib.o")], "cc", None).unwrap();
    g.add_product(vec![s("main.c"), s("lib.o")], vec![s("main")], "cc", None).unwrap();
    g.resolve_dependencies();
    let order = g.topological_sort().unwrap();
    assert_eq!(order.len(), 2);
    let pos0 = order.iter().position(|&id| id == 0).unwrap();
    let pos1 = order.iter().position(|&id| id == 1).unwrap();
    assert!(pos0 < pos1);
}

#[test]
fn topological_sort_chain() {
    let mut g = BuildGraph::new();
    g.add_product(vec![s("a.c")], vec![s("a.o")], "cc", None).unwrap();
    g.add_product(vec![s("a.o")], vec![s("b.o")], "link", None).unwrap();
    g.add_product(vec![s("b.o")], vec![s("c.out")], "link", None).unwrap();
    g.resolve_dependencies();
    let order = g.topological_sort().unwrap();
    assert_eq!(order, vec![0, 1, 2]);
}

#[test]
fn cycle_detection() {
    let mut g = BuildGraph::new();
    g.add_product(vec![s("b.o")], vec![s("a.o")], "cc", None).unwrap();
    g.add_product(vec![s("a.o")], vec![s("b.o")], "cc", None).unwrap();
    g.resolve_dependencies();
    let result = g.topological_sort();
    assert!(result.is_err());
    assert!(result.unwrap_err().to_string().contains("Cycle"));
}

#[test]
fn resolve_dependencies_links_products() {
    let mut g = BuildGraph::new();
    g.add_product(vec![s("src.c")], vec![s("obj.o")], "cc", None).unwrap();
    g.add_product(vec![s("obj.o")], vec![s("app")], "link", None).unwrap();
    g.resolve_dependencies();
    assert_eq!(g.get_dependencies(1), &[0]);
    assert!(g.get_dependencies(0).is_empty());
}

#[test]
fn descriptor_key_differs_per_format_variant() {
    let p_pdf = Product::with_variant(vec![s("doc.md")], vec![s("out/doc.pdf")], "pandoc", 0, Some(s("h")), "pdf");
    let p_html = Product::with_variant(vec![s("doc.md")], vec![s("out/doc.html")], "pandoc", 0, Some(s("h")), "html");
    let p_docx = Product::with_variant(vec![s("doc.md")], vec![s("out/doc.docx")], "pandoc", 0, Some(s("h")), "docx");
    assert_ne!(p_pdf.descriptor_key("chk"), p_html.descriptor_key("chk"));
    assert_ne!(p_html.descriptor_key("chk"), p_docx.descriptor_key("chk"));
    assert_ne!(p_pdf.descriptor_key("chk"), p_docx.descriptor_key("chk"));
}

#[test]
fn descriptor_key_includes_config_hash() {
    let p1 = Product::new(vec![s("a.c")], vec![], "cc", 0, None);
    let p2 = Product::new(vec![s("a.c")], vec![], "cc", 0, Some(s("abc123")));
    assert_ne!(p1.descriptor_key("chk"), p2.descriptor_key("chk"));
}

#[test]
fn apply_tool_version_hashes() {
    let mut g = BuildGraph::new();
    g.add_product(vec![s("a.c")], vec![], "cc", Some(s("cfg1"))).unwrap();
    g.add_product(vec![s("b.py")], vec![], "ruff", None).unwrap();
    let before_cc = g.get_product(0).unwrap().descriptor_key("chk");
    let before_ruff = g.get_product(1).unwrap().descriptor_key("chk");

    let hashes = vec![(s("cc"), s("toolv1"))];
    g.apply_tool_version_hashes(&hashes);

    let cc_key = &g.get_product(0).unwrap().cache_key;
    let components: Vec<_> = cc_key.components().iter().map(|(c, v)| (c.tag(), v.as_str())).collect();
    assert_eq!(components, vec![("config", "cfg1"), ("tool", "toolv1")]);
    assert_ne!(before_cc, g.get_product(0).unwrap().descriptor_key("chk"));

    assert!(g.get_product(1).unwrap().cache_key.is_empty());
    assert_eq!(before_ruff, g.get_product(1).unwrap().descriptor_key("chk"));
}

#[test]
fn variant_is_a_cache_key_component() {
    let plain = Product::new(vec![s("a.c")], vec![], "cc", 0, Some(s("cfg")));
    let debug = Product::with_variant(vec![s("a.c")], vec![], "cc", 0, Some(s("cfg")), "debug");
    let release = Product::with_variant(vec![s("a.c")], vec![], "cc", 0, Some(s("cfg")), "release");
    assert_ne!(plain.descriptor_key("chk"), debug.descriptor_key("chk"));
    assert_ne!(debug.descriptor_key("chk"), release.descriptor_key("chk"));
    assert_eq!(
        debug.cache_key.components().iter().map(|(c, _)| c.tag()).collect::<Vec<_>>(),
        vec!["config", "variant"],
    );
}

#[test]
fn analyzer_pieces_accumulate_distinctly() {
    let mut p = Product::new(vec![s("a.tera")], vec![], "tera", 0, None);
    let empty = p.descriptor_key("chk");
    p.extend_config_hash("glob:one");
    let one = p.descriptor_key("chk");
    p.extend_config_hash("glob:two");
    let two = p.descriptor_key("chk");
    assert_ne!(empty, one);
    assert_ne!(one, two);
    assert_eq!(p.cache_key.components().len(), 2);
}

#[test]
fn empty_graph_sorts_ok() {
    let g = BuildGraph::new();
    let order = g.topological_sort().unwrap();
    assert!(order.is_empty());
}

#[test]
fn checker_dedup_updates_inputs_on_superset() {
    let mut g = BuildGraph::new();
    let gen_id = g.add_product(vec![s("src/page.md")], vec![s("_site/page.html")], "pandoc", None).unwrap();
    let explicit_id = g.add_product(vec![s("resources/index.html")], vec![], "explicit.build_site", None).unwrap();
    assert_ne!(gen_id, explicit_id);
    let redeclared_id = g
        .add_product(vec![s("resources/index.html"), s("_site/page.html")], vec![], "explicit.build_site", None)
        .unwrap();
    assert_eq!(redeclared_id, explicit_id);
    assert_eq!(g.products().len(), 2);
    let product = g.get_product(explicit_id).unwrap();
    assert_eq!(product.inputs.len(), 2);
    assert_eq!(product.inputs[0], "resources/index.html");
    assert_eq!(product.inputs[1], "_site/page.html");
    g.resolve_dependencies();
    assert_eq!(g.get_dependencies(explicit_id), &[gen_id]);
    let order = g.topological_sort().unwrap();
    let gen_pos = order.iter().position(|&id| id == gen_id).unwrap();
    let explicit_pos = order.iter().position(|&id| id == explicit_id).unwrap();
    assert!(gen_pos < explicit_pos, "pandoc (pos {gen_pos}) must run before explicit (pos {explicit_pos})");
}

#[test]
fn retain_products_rebuilds_indexes() {
    let mut g = BuildGraph::new();
    g.add_product(vec![s("a.py")], vec![], "ruff", None).unwrap();
    g.add_product(vec![s("b.md")], vec![s("b.html")], "pandoc", None).unwrap();
    g.add_product(vec![s("c.py")], vec![], "ruff", None).unwrap();

    g.retain_products(|p: &Product| p.processor != "ruff" || p.inputs[0] != "a.py");

    assert_eq!(g.products().len(), 2);
    for (idx, product) in g.products().iter().enumerate() {
        assert_eq!(product.id, idx, "id must equal index after retain");
        let fetched = g.get_product(product.id).expect("id must resolve");
        assert_eq!(fetched.inputs, product.inputs);
        assert!(g.get_dependencies(product.id).is_empty() || product.id < g.products().len());
    }
    let owner = g.path_owner("b.html").expect("output owner must survive");
    assert_eq!(g.products()[owner].primary_input(), "b.md");
    assert!(g.path_owner("a.py").is_none());
}

#[test]
fn filter_by_targets_preserves_dependencies() {
    let mut g = BuildGraph::new();
    g.add_product(vec![s("other.txt")], vec![], "check", None).unwrap();
    let producer = g.add_product(vec![s("a.md")], vec![s("out.html")], "pandoc", None).unwrap();
    let consumer = g.add_product(vec![s("out.html")], vec![s("final.pdf")], "chromium", None).unwrap();
    g.resolve_dependencies();
    assert_eq!(g.get_dependencies(consumer), &[producer]);

    g.filter_by_targets(&vec![s("a.md"), s("out.html")]).unwrap();
    assert_eq!(g.products().len(), 2);

    let new_producer = g.products().iter().find(|p| p.processor == "pandoc").unwrap().id;
    let new_consumer = g.products().iter().find(|p| p.processor == "chromium").unwrap().id;
    assert_eq!(g.get_dependencies(new_consumer), &[new_producer]);

    let order = g.topological_sort().unwrap();
    let prod_pos = order.iter().position(|&id| id == new_producer).unwrap();
    let cons_pos = order.iter().position(|&id| id == new_consumer).unwrap();
    assert!(prod_pos < cons_pos);
}

#[test]
fn filtering_preserves_every_index_and_product_field() {
    let mut g = BuildGraph::new();
    g.add_product(vec![s("drop.txt")], vec![], "check", None).unwrap();
    g.add_product_with_output_dir(vec![s("keep.rs")], vec![s("keep.bin")], "cargo", Some(s("cfg")), s("target/debug"))
        .unwrap();
    g.add_product(vec![s("keep.rs")], vec![], "clippy", None).unwrap();
    g.resolve_dependencies();

    g.filter_by_targets(&vec![s("keep.rs")]).unwrap();
    assert_eq!(g.products().len(), 2, "only the two keep.rs products survive");

    for (i, p) in g.products().iter().enumerate() {
        assert_eq!(p.id, i, "product {i} has id {} after filtering", p.id);
    }

    let owner = g.path_owner("keep.bin").expect("output must still be owned");
    assert_eq!(g.get_product(owner).unwrap().processor, "cargo");

    let cargo = g.products().iter().find(|p| p.processor == "cargo").unwrap();
    assert_eq!(cargo.output_dirs.len(), 1);
    assert_eq!(cargo.output_dirs[0], "target/debug");
    assert!(cargo.cache_key.digest().is_some(), "config hash must survive");

    let before = g.products().len();
    let dup = g.add_product(vec![s("keep.rs")], vec![], "clippy", None).unwrap();
    assert_eq!(g.products().len(), before, "re-declared checker must dedup");
    assert_eq!(g.get_product(dup).unwrap().processor, "clippy");
}

#[test]
fn filter_by_targets_closes_over_producers() {
    let mut g = BuildGraph::new();
    g.add_product(vec![s("other.txt")], vec![], "check", None).unwrap();
    g.add_product(vec![s("a.md")], vec![s("out.html")], "pandoc", None).unwrap();
    g.add_product(vec![s("out.html")], vec![s("final.pdf")], "chromium", None).unwrap();
    g.resolve_dependencies();

    g.filter_by_targets(&vec![s("out.html")]).unwrap();
    assert_eq!(g.products().len(), 2, "producer must be kept transitively");

    let new_producer = g.products().iter().find(|p| p.processor == "pandoc").unwrap().id;
    let new_consumer = g.products().iter().find(|p| p.processor == "chromium").unwrap().id;
    assert_eq!(g.get_dependencies(new_consumer), &[new_producer]);
}

fn chain() -> BuildGraph {
    let mut g = BuildGraph::new();
    g.add_product(vec![s("a.src")], vec![s("a.mid")], "gen1", None).unwrap();
    g.add_product(vec![s("a.mid")], vec![s("a.out")], "gen2", None).unwrap();
    g.add_product(vec![s("a.out")], vec![s("a.final")], "gen3", None).unwrap();
    g.resolve_dependencies();
    g
}

#[test]
fn filter_by_targets_closure_is_transitive_and_upstream_only() {
    let mut tail = chain();
    tail.filter_by_targets(&vec![s("a.out")]).unwrap();
    assert_eq!(tail.products().len(), 3, "whole upstream chain must survive");

    let mut head = chain();
    head.filter_by_targets(&vec![s("a.src")]).unwrap();
    assert_eq!(head.products().len(), 1, "consumers must not be pulled in");
    assert_eq!(head.products()[0].processor, "gen1");
}

#[test]
fn checker_dedup_identical_redeclaration() {
    let mut g = BuildGraph::new();
    let id1 = g.add_product(vec![s("a.py"), s("b.py")], vec![], "ruff", None).unwrap();
    let id2 = g.add_product(vec![s("a.py"), s("b.py")], vec![], "ruff", None).unwrap();
    assert_eq!(id1, id2);
    assert_eq!(g.products().len(), 1);
    assert_eq!(g.get_product(id1).unwrap().inputs.len(), 2);
}

#[test]
fn checker_dedup_non_superset_is_an_error() {
    let mut g = BuildGraph::new();
    g.add_product(vec![s("a.py"), s("b.py")], vec![], "ruff", None).unwrap();
    let err = g
        .add_product(vec![s("a.py"), s("c.py")], vec![], "ruff", None)
        .expect_err("non-superset checker re-declaration must be rejected");
    let msg = err.to_string();
    assert!(msg.contains("Input conflict"), "unexpected message: {msg}");
    assert!(msg.contains("ruff"), "message should name the processor: {msg}");
}

#[test]
fn checker_dedup_different_primary_input_creates_new() {
    let mut g = BuildGraph::new();
    let id1 = g.add_product(vec![s("a.py")], vec![], "ruff", None).unwrap();
    let id2 = g.add_product(vec![s("b.py")], vec![], "ruff", None).unwrap();
    assert_ne!(id1, id2);
    assert_eq!(g.products().len(), 2);
}

#[test]
fn generator_dedup_updates_inputs_on_superset() {
    let mut g = BuildGraph::new();
    let id1 = g.add_product(vec![s("a.md")], vec![s("out/a.html")], "pandoc", None).unwrap();
    let id2 = g.add_product(vec![s("a.md"), s("style.css")], vec![s("out/a.html")], "pandoc", None).unwrap();
    assert_eq!(id1, id2);
    assert_eq!(g.products().len(), 1);
    assert_eq!(g.get_product(id1).unwrap().inputs.len(), 2);
}

#[test]
fn generator_dedup_non_superset_is_conflict() {
    let mut g = BuildGraph::new();
    g.add_product(vec![s("a.c")], vec![s("out.o")], "cc", None).unwrap();
    let result = g.add_product(vec![s("b.c")], vec![s("out.o")], "cc", None);
    assert!(result.is_err());
    assert!(result.unwrap_err().to_string().contains("Output conflict"));
}

#[test]
fn invalid_target_pattern_is_reported() {
    let mut g = chain();
    let err = g.filter_by_targets(&vec![s("a[")]).unwrap_err();
    match &err.links[0] {
        ErrorLink::Message(m) => assert_eq!(m, "Invalid glob pattern: a["),
        other => panic!("unexpected outer layer: {other:?}"),
    }
    assert_eq!(g.products().len(), 3);
}
