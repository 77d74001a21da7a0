//! Renderings of the build graph: Graphviz DOT, Mermaid, plain text, JSON
//! and a self-contained HTML page.

use vstd::prelude::*;
use crate::display::{file_name, file_name_of};
use crate::graph::{BuildGraph, Product, ProductView, edges_ok};
use crate::config_diff::JsonValue;
use crate::json_text::{JsonView, items_view, json_pretty_text, json_to_string_pretty, json_view, lemma_items_view_push, members_view};
use crate::text::clone_string;
use crate::order::{has_topological_order, is_least_first, is_topological_order, least_order, lemma_least_order_unique};
use crate::text::{chars_of, decimal, digit_char, join, join_strings, string_of, strings_contain, strs, trim_end, trim_end_spec, usize_to_string};

verus! {

/// The processor whose nodes are drawn light blue.
pub const TEMPLATE_PROCESSOR: &'static str = "tera";

/// The processor whose nodes are drawn light salmon.
pub const SINGLE_FILE_CC_PROCESSOR: &'static str = "cc_single_file";

/// A path character as it appears in a node id: `.`, `-`, `/` and space
/// become `_`.
pub open spec fn node_char(c: char) -> char {
    if c == '.' || c == '-' || c == '/' || c == ' ' {
        '_'
    } else {
        c
    }
}

/// The node id of a file.
pub open spec fn path_node_id(p: Seq<char>) -> Seq<char> {
    "f_"@ + p.map_values(|c: char| node_char(c))
}

/// The label of a file node: its file name, `unknown` when it has none.
pub open spec fn file_label(p: Seq<char>) -> Seq<char> {
    match file_name_of(p) {
        Some(n) => n,
        None => "unknown"@,
    }
}

/// The node id of a product.
pub open spec fn proc_node_id(id: nat) -> Seq<char> {
    "proc_"@ + decimal(id)
}

/// The lines one after another.
pub open spec fn concat(ls: Seq<Seq<char>>) -> Seq<char>
    decreases ls.len(),
{
    if ls.len() == 0 {
        Seq::empty()
    } else {
        concat(ls.drop_last()) + ls.last()
    }
}

/// `s` without repeats, each kept where it first occurs.
pub open spec fn dedup(s: Seq<Seq<char>>) -> Seq<Seq<char>>
    decreases s.len(),
{
    if s.len() == 0 {
        Seq::empty()
    } else {
        let d = dedup(s.drop_last());
        if d.contains(s.last()) {
            d
        } else {
            d.push(s.last())
        }
    }
}

/// Every input of every product, in order.
pub open spec fn all_inputs(ps: Seq<ProductView>) -> Seq<Seq<char>>
    decreases ps.len(),
{
    if ps.len() == 0 {
        Seq::empty()
    } else {
        all_inputs(ps.drop_last()) + ps.last().inputs
    }
}

/// Every output of every product, in order.
pub open spec fn all_outputs(ps: Seq<ProductView>) -> Seq<Seq<char>>
    decreases ps.len(),
{
    if ps.len() == 0 {
        Seq::empty()
    } else {
        all_outputs(ps.drop_last()) + ps.last().outputs
    }
}

/// The first input of every product that has one, in order.
pub open spec fn first_inputs(ps: Seq<ProductView>) -> Seq<Seq<char>>
    decreases ps.len(),
{
    if ps.len() == 0 {
        Seq::empty()
    } else if ps.last().inputs.len() > 0 {
        first_inputs(ps.drop_last()).push(ps.last().inputs[0])
    } else {
        first_inputs(ps.drop_last())
    }
}

/// The DOT source-file nodes: one per file of `files` that is not in
/// `outputs`.
pub open spec fn source_lines(files: Seq<Seq<char>>, outputs: Seq<Seq<char>>) -> Seq<Seq<char>>
    decreases files.len(),
{
    if files.len() == 0 {
        Seq::empty()
    } else if outputs.contains(files.last()) {
        source_lines(files.drop_last(), outputs)
    } else {
        source_lines(files.drop_last(), outputs).push(dot_source_line(files.last()))
    }
}

/// The DOT generated-file nodes, one per file.
pub open spec fn generated_lines(files: Seq<Seq<char>>, inputs: Seq<Seq<char>>) -> Seq<Seq<char>>
    decreases files.len(),
{
    if files.len() == 0 {
        Seq::empty()
    } else {
        generated_lines(files.drop_last(), inputs).push(dot_generated_line(files.last(), inputs))
    }
}

/// A DOT source-file node.
pub open spec fn dot_source_line(f: Seq<char>) -> Seq<char> {
    "    "@ + path_node_id(f) + " [label=\""@ + file_label(f) + "\" shape=note style=filled fillcolor=white];\n"@
}

/// A DOT generated-file node, green when another product reads it.
pub open spec fn dot_generated_line(f: Seq<char>, inputs: Seq<Seq<char>>) -> Seq<char> {
    "    "@ + path_node_id(f) + " [label=\""@ + file_label(f) + "\" shape=note style=filled fillcolor="@ + (if inputs.contains(
        f,
    ) {
        "lightgreen"@
    } else {
        "lightyellow"@
    }) + "];\n"@
}

/// The fill color of a processor node.
pub open spec fn proc_color(p: Seq<char>) -> Seq<char> {
    if p == TEMPLATE_PROCESSOR@ {
        "lightblue"@
    } else if p == SINGLE_FILE_CC_PROCESSOR@ {
        "lightsalmon"@
    } else {
        "lightgray"@
    }
}

/// The DOT processor nodes of the first `m` products.
pub open spec fn dot_proc_lines(ps: Seq<ProductView>, m: int) -> Seq<Seq<char>>
    decreases m,
{
    if m <= 0 {
        Seq::empty()
    } else {
        dot_proc_lines(ps, m - 1).push(
            "    "@ + proc_node_id(ps[m - 1].id) + " [label=\""@ + ps[m - 1].processor + "\" shape=box style=filled fillcolor="@
                + proc_color(ps[m - 1].processor) + "];\n"@,
        )
    }
}

/// The edges of one product: each input to it, it to each output, with the
/// given arrow.
pub open spec fn edge_lines(ins: Seq<Seq<char>>, outs: Seq<Seq<char>>, pid: Seq<char>, arrow: Seq<char>, end: Seq<char>) -> Seq<
    Seq<char>,
> {
    ins.map_values(|f: Seq<char>| "    "@ + path_node_id(f) + arrow + pid + end) + outs.map_values(
        |f: Seq<char>| "    "@ + pid + arrow + path_node_id(f) + end,
    )
}

/// The DOT edges of the first `m` products.
pub open spec fn dot_edge_lines(ps: Seq<ProductView>, m: int) -> Seq<Seq<char>>
    decreases m,
{
    if m <= 0 {
        Seq::empty()
    } else {
        dot_edge_lines(ps, m - 1) + edge_lines(ps[m - 1].inputs, ps[m - 1].outputs, proc_node_id(ps[m - 1].id), " -> "@, ";\n"@)
    }
}

/// The DOT rendering of the graph.
pub open spec fn dot_spec(ps: Seq<ProductView>) -> Seq<char> {
    let ins = dedup(all_inputs(ps));
    let outs = dedup(all_outputs(ps));
    "digraph build_graph {\n    rankdir=LR;\n\n    // Source files\n"@ + concat(source_lines(ins, outs))
        + "\n    // Generated files\n"@ + concat(generated_lines(outs, ins))
        + "\n    // Processors\n"@ + concat(dot_proc_lines(ps, ps.len() as int)) + "\n    // Edges\n"@ + concat(
        dot_edge_lines(ps, ps.len() as int),
    ) + "}"@
}


/// A Mermaid file node.
pub open spec fn mermaid_file_line(f: Seq<char>) -> Seq<char> {
    "    "@ + path_node_id(f) + "[/\""@ + file_label(f) + "\"/]\n"@
}

/// The Mermaid source-file nodes: one per file of `files` not in `outputs`.
pub open spec fn mermaid_source_lines(files: Seq<Seq<char>>, outputs: Seq<Seq<char>>) -> Seq<Seq<char>>
    decreases files.len(),
{
    if files.len() == 0 {
        Seq::empty()
    } else if outputs.contains(files.last()) {
        mermaid_source_lines(files.drop_last(), outputs)
    } else {
        mermaid_source_lines(files.drop_last(), outputs).push(mermaid_file_line(files.last()))
    }
}

/// The Mermaid nodes of a list of files.
pub open spec fn mermaid_file_lines(files: Seq<Seq<char>>) -> Seq<Seq<char>> {
    files.map_values(|f: Seq<char>| mermaid_file_line(f))
}

/// The Mermaid processor nodes of the first `m` products.
pub open spec fn mermaid_proc_lines(ps: Seq<ProductView>, m: int) -> Seq<Seq<char>>
    decreases m,
{
    if m <= 0 {
        Seq::empty()
    } else {
        mermaid_proc_lines(ps, m - 1).push("    "@ + proc_node_id(ps[m - 1].id) + "[\""@ + ps[m - 1].processor + "\" ]\n"@)
    }
}

/// The Mermaid edges of the first `m` products: from the primary input
/// only, and to every output.
pub open spec fn mermaid_edge_lines(ps: Seq<ProductView>, m: int) -> Seq<Seq<char>>
    decreases m,
{
    if m <= 0 {
        Seq::empty()
    } else {
        let p = ps[m - 1];
        mermaid_edge_lines(ps, m - 1) + edge_lines(
            if p.inputs.len() > 0 {
                seq![p.inputs[0]]
            } else {
                Seq::empty()
            },
            p.outputs,
            proc_node_id(p.id),
            " --> "@,
            "\n"@,
        )
    }
}

/// The Mermaid style lines for the first `m` products of processor `name`.
pub open spec fn style_lines(ps: Seq<ProductView>, m: int, name: Seq<char>, fill: Seq<char>) -> Seq<Seq<char>>
    decreases m,
{
    if m <= 0 {
        Seq::empty()
    } else if ps[m - 1].processor == name {
        style_lines(ps, m - 1, name, fill).push("\n    style "@ + proc_node_id(ps[m - 1].id) + " fill:"@ + fill + "\n"@)
    } else {
        style_lines(ps, m - 1, name, fill)
    }
}

/// The Mermaid rendering of the graph, trailing whitespace trimmed.
pub open spec fn mermaid_spec(ps: Seq<ProductView>) -> Seq<char> {
    let srcs = dedup(first_inputs(ps));
    let outs = dedup(all_outputs(ps));
    let n = ps.len() as int;
    trim_end_spec(
        "graph LR\n\n    %% Source files\n"@ + concat(mermaid_source_lines(srcs, outs)) + "\n    %% Generated files\n"@
            + concat(mermaid_file_lines(outs)) + "\n    %% Processors\n"@ + concat(mermaid_proc_lines(ps, n))
            + "\n    %% Edges\n"@ + concat(mermaid_edge_lines(ps, n)) + concat(style_lines(ps, n, TEMPLATE_PROCESSOR@, "#add8e6"@))
            + concat(style_lines(ps, n, SINGLE_FILE_CC_PROCESSOR@, "#ffa07a"@)),
    )
}

/// The HTML page up to the diagram.
pub open spec fn html_prefix() -> Seq<char> {
    "<!DOCTYPE html>\n<html>\n<head>\n    <meta charset=\"UTF-8\">\n    <title>RSConstruct Build Graph</title>\n    <script src=\"https://cdn.jsdelivr.net/npm/mermaid/dist/mermaid.min.js\"></script>\n    <style>\n        body {\n            font-family: -apple-system, BlinkMacSystemFont, 'Segoe UI', Roboto, sans-serif;\n            margin: 40px;\n            background: #f5f5f5;\n        }\n        h1 {\n            color: #333;\n        }\n        .mermaid {\n            background: white;\n            padding: 20px;\n            border-radius: 8px;\n            box-shadow: 0 2px 4px rgba(0,0,0,0.1);\n        }\n    </style>\n</head>\n<body>\n    <h1>RSConstruct Build Graph</h1>\n    <div class=\"mermaid\">\n"@
}

/// The HTML page after the diagram.
pub open spec fn html_suffix() -> Seq<char> {
    "\n    </div>\n    <script>\n        mermaid.initialize({ startOnLoad: true, theme: 'default', maxTextSize: 500000 });\n    </script>\n</body>\n</html>\n"@
}

/// The file names of the paths that have one, in order.
pub open spec fn file_names(paths: Seq<Seq<char>>) -> Seq<Seq<char>>
    decreases paths.len(),
{
    if paths.len() == 0 {
        Seq::empty()
    } else {
        match file_name_of(paths.last()) {
            Some(n) => file_names(paths.drop_last()).push(n),
            None => file_names(paths.drop_last()),
        }
    }
}

/// The text lines of one product: what it reads and writes, then, when it
/// has dependencies, the outputs of each.
pub open spec fn text_lines_of(ps: Seq<ProductView>, deps: Seq<Seq<usize>>, id: int) -> Seq<char> {
    let p = ps[id];
    let head = "["@ + p.processor + "] "@ + join(file_names(p.inputs), ", "@) + " -> "@ + join(file_names(p.outputs), ", "@)
        + "\n"@;
    if deps[id].len() == 0 {
        head
    } else {
        head + "    depends on: "@ + join(deps[id].map_values(|d: usize| join(file_names(ps[d as int].outputs), ", "@)), ", "@)
            + "\n"@
    }
}

/// The text lines of the first `m` products of `order`.
pub open spec fn text_body(ps: Seq<ProductView>, deps: Seq<Seq<usize>>, order: Seq<usize>, m: int) -> Seq<char>
    decreases m,
{
    if m <= 0 {
        Seq::empty()
    } else {
        text_body(ps, deps, order, m - 1) + text_lines_of(ps, deps, order[m - 1] as int)
    }
}

/// The plain-text rendering of the graph, trailing whitespace trimmed:
/// products in the dependency order that lists the smallest ready product
/// first, or an error line when there is a cycle.
pub open spec fn text_spec(ps: Seq<ProductView>, deps: Seq<Seq<usize>>) -> Seq<char> {
    let header = "Build Dependency Graph\n======================\n"@;
    if !has_topological_order(deps) {
        trim_end_spec(header + "Error: Cycle detected in graph\n"@)
    } else {
        let order = least_order(deps);
        trim_end_spec(
            header + text_body(ps, deps, order, order.len() as int) + if ps.len() == 0 {
                "(empty graph)\n"@
            } else {
                Seq::empty()
            },
        )
    }
}

/// A node id of a file.
fn node_id(p: &str) -> (r: String)
    ensures
        r@ == path_node_id(p@),
{
    let cs = chars_of(p);
    let mut out: Vec<char> = Vec::new();
    out.push('f');
    out.push('_');
    let mut i: usize = 0;
    while i < cs.len()
        invariant
            0 <= i <= cs.len(),
            cs@ == p@,
            out@ == seq!['f', '_'] + p@.take(i as int).map_values(|c: char| node_char(c)),
        decreases cs.len() - i,
    {
        let c: char = cs[i];
        out.push(if c == '.' || c == '-' || c == '/' || c == ' ' {
            '_'
        } else {
            c
        });
        proof {
            assert(p@.take(i + 1).map_values(|c: char| node_char(c)) =~= p@.take(i as int).map_values(|c: char| node_char(c)).push(
                node_char(c),
            ));
        }
        i = i + 1;
    }
    proof {
        reveal_strlit("f_");
        assert(p@.take(cs.len() as int) =~= p@);
        assert("f_"@ =~= seq!['f', '_']);
    }
    string_of(&out)
}

/// The label of a file node.
fn label(p: &str) -> (r: String)
    ensures
        r@ == file_label(p@),
{
    match file_name(p) {
        Some(n) => n,
        None => String::from_str("unknown"),
    }
}

/// The node id of a product.
fn proc_id(id: usize) -> (r: String)
    ensures
        r@ == proc_node_id(id as nat),
{
    let mut s: String = String::from_str("proc_");
    s.append(usize_to_string(id).as_str());
    s
}

/// `v` without repeats, each kept where it first occurs.
fn dedup_exec(v: &Vec<String>) -> (r: Vec<String>)
    ensures
        strs(r@) == dedup(strs(v@)),
{
    let mut r: Vec<String> = Vec::new();
    let mut i: usize = 0;
    while i < v.len()
        invariant
            0 <= i <= v.len(),
            strs(r@) == dedup(strs(v@).take(i as int)),
        decreases v.len() - i,
    {
        proof {
            assert(strs(v@).take(i + 1).drop_last() =~= strs(v@).take(i as int));
        }
        if !strings_contain(&r, v[i].as_str()) {
            let ghost r0 = strs(r@);
            r.push(v[i].clone());
            proof {
                assert(strs(r@) =~= r0.push(v@[i as int]@));
            }
        }
        i = i + 1;
    }
    proof {
        assert(strs(v@).take(v.len() as int) =~= strs(v@));
    }
    r
}


/// The file names of the paths that have one.
fn names_of(paths: &Vec<String>) -> (r: Vec<String>)
    ensures
        strs(r@) == file_names(strs(paths@)),
{
    let mut r: Vec<String> = Vec::new();
    let mut i: usize = 0;
    while i < paths.len()
        invariant
            0 <= i <= paths.len(),
            strs(r@) == file_names(strs(paths@).take(i as int)),
        decreases paths.len() - i,
    {
        proof {
            assert(strs(paths@).take(i + 1).drop_last() =~= strs(paths@).take(i as int));
            assert(strs(paths@).take(i + 1).last() == paths@[i as int]@);
        }
        match file_name(paths[i].as_str()) {
            Some(n) => {
                let ghost r0 = strs(r@);
                r.push(n);
                proof {
                    assert(strs(r@) =~= r0.push(file_name_of(paths@[i as int]@)->0));
                }
            },
            None => {},
        }
        i = i + 1;
    }
    proof {
        assert(strs(paths@).take(paths.len() as int) =~= strs(paths@));
    }
    r
}

impl BuildGraph {
    /// Every input (or, with `outputs`, every output) of every product.
    fn all_paths(&self, outputs: bool) -> (r: Vec<String>)
        ensures
            strs(r@) == if outputs {
                all_outputs(self@.products)
            } else {
                all_inputs(self@.products)
            },
    {
        let ps = self.products();
        let ghost pv = self@.products;
        let mut r: Vec<String> = Vec::new();
        let mut i: usize = 0;
        while i < ps.len()
            invariant
                0 <= i <= ps.len(),
                pv == ps@.map_values(|p: crate::graph::Product| p@),
                strs(r@) == if outputs {
                    all_outputs(pv.take(i as int))
                } else {
                    all_inputs(pv.take(i as int))
                },
            decreases ps.len() - i,
        {
            let paths: &Vec<String> = if outputs {
                &ps[i].outputs
            } else {
                &ps[i].inputs
            };
            let ghost r0 = strs(r@);
            let mut k: usize = 0;
            while k < paths.len()
                invariant
                    0 <= k <= paths.len(),
                    strs(r@) == r0 + strs(paths@).take(k as int),
                decreases paths.len() - k,
            {
                let ghost r1 = strs(r@);
                r.push(paths[k].clone());
                proof {
                    assert(strs(r@) =~= r1.push(paths@[k as int]@));
                    assert(strs(paths@).take(k + 1) =~= strs(paths@).take(k as int).push(paths@[k as int]@));
                }
                k = k + 1;
            }
            proof {
                assert(strs(paths@).take(paths.len() as int) =~= strs(paths@));
                assert(pv.take(i + 1).drop_last() =~= pv.take(i as int));
                assert(pv[i as int] == ps@[i as int]@);
            }
            i = i + 1;
        }
        proof {
            assert(pv.take(ps.len() as int) =~= pv);
        }
        r
    }

    /// The graph as Graphviz DOT: source files, generated files (green when
    /// another product reads them), processors, then the edges. Files are
    /// listed once each, where they first occur.
    pub fn to_dot(&self) -> (r: String)
        ensures
            r@ == dot_spec(self@.products),
    {
        let ghost ps = self@.products;
        let ins: Vec<String> = dedup_exec(&self.all_paths(false));
        let outs: Vec<String> = dedup_exec(&self.all_paths(true));
        let mut buf: String = String::from_str("digraph build_graph {\n    rankdir=LR;\n\n    // Source files\n");
        let ghost b0 = buf@;
        let mut i: usize = 0;
        while i < ins.len()
            invariant
                0 <= i <= ins.len(),
                buf@ == b0 + concat(source_lines(strs(ins@).take(i as int), strs(outs@))),
            decreases ins.len() - i,
        {
            let f: &str = ins[i].as_str();
            proof {
                assert(strs(ins@).take(i + 1).drop_last() =~= strs(ins@).take(i as int));
                assert(strs(ins@).take(i + 1).last() == f@);
            }
            let ghost old_buf = buf@;
            if !strings_contain(&outs, f) {
                buf.append("    ");
                buf.append(node_id(f).as_str());
                buf.append(" [label=\"");
                buf.append(label(f).as_str());
                buf.append("\" shape=note style=filled fillcolor=white];\n");
                proof {
                    assert(buf@ =~= old_buf + dot_source_line(f@));
                    let prev = source_lines(strs(ins@).take(i as int), strs(outs@));
                    assert(prev.push(dot_source_line(f@)).drop_last() =~= prev);
                    assert(b0 + concat(prev.push(dot_source_line(f@))) =~= (b0 + concat(prev)) + dot_source_line(f@));
                }
            }
            i = i + 1;
        }
        proof {
            assert(strs(ins@).take(ins.len() as int) =~= strs(ins@));
        }
        buf.append("\n    // Generated files\n");
        let ghost b1 = buf@;
        let mut j: usize = 0;
        while j < outs.len()
            invariant
                0 <= j <= outs.len(),
                buf@ == b1 + concat(generated_lines(strs(outs@).take(j as int), strs(ins@))),
            decreases outs.len() - j,
        {
            let f: &str = outs[j].as_str();
            proof {
                assert(strs(outs@).take(j + 1).drop_last() =~= strs(outs@).take(j as int));
                assert(strs(outs@).take(j + 1).last() == f@);
            }
            let ghost old_buf = buf@;
            buf.append("    ");
            buf.append(node_id(f).as_str());
            buf.append(" [label=\"");
            buf.append(label(f).as_str());
            buf.append("\" shape=note style=filled fillcolor=");
            if strings_contain(&ins, f) {
                buf.append("lightgreen");
            } else {
                buf.append("lightyellow");
            }
            buf.append("];\n");
            proof {
                assert(buf@ =~= old_buf + dot_generated_line(f@, strs(ins@)));
                let prev = generated_lines(strs(outs@).take(j as int), strs(ins@));
                assert(prev.push(dot_generated_line(f@, strs(ins@))).drop_last() =~= prev);
                assert(b1 + concat(prev.push(dot_generated_line(f@, strs(ins@)))) =~= (b1 + concat(prev)) + dot_generated_line(
                    f@,
                    strs(ins@),
                ));
            }
            j = j + 1;
        }
        proof {
            assert(strs(outs@).take(outs.len() as int) =~= strs(outs@));
        }
        buf.append("\n    // Processors\n");
        let ps_exec = self.products();
        let ghost b2 = buf@;
        let mut k: usize = 0;
        while k < ps_exec.len()
            invariant
                0 <= k <= ps_exec.len(),
                ps == ps_exec@.map_values(|p: crate::graph::Product| p@),
                buf@ == b2 + concat(dot_proc_lines(ps, k as int)),
            decreases ps_exec.len() - k,
        {
            let p = &ps_exec[k];
            proof {
                assert(ps[k as int] == p@);
            }
            let ghost old_buf = buf@;
            buf.append("    ");
            buf.append(proc_id(p.id).as_str());
            buf.append(" [label=\"");
            buf.append(p.processor.as_str());
            buf.append("\" shape=box style=filled fillcolor=");
            if crate::text::str_eq(p.processor.as_str(), TEMPLATE_PROCESSOR) {
                buf.append("lightblue");
            } else if crate::text::str_eq(p.processor.as_str(), SINGLE_FILE_CC_PROCESSOR) {
                buf.append("lightsalmon");
            } else {
                buf.append("lightgray");
            }
            buf.append("];\n");
            proof {
                assert(buf@ =~= old_buf + ("    "@ + proc_node_id(ps[k as int].id) + " [label=\""@ + ps[k as int].processor
                    + "\" shape=box style=filled fillcolor="@ + proc_color(ps[k as int].processor) + "];\n"@));
                let prev = dot_proc_lines(ps, k as int);
                let l = "    "@ + proc_node_id(ps[k as int].id) + " [label=\""@ + ps[k as int].processor
                    + "\" shape=box style=filled fillcolor="@ + proc_color(ps[k as int].processor) + "];\n"@;
                assert(prev.push(l).drop_last() =~= prev);
                assert(b2 + concat(prev.push(l)) =~= (b2 + concat(prev)) + l);
            }
            k = k + 1;
        }
        buf.append("\n    // Edges\n");
        let ghost b3 = buf@;
        let mut m: usize = 0;
        while m < ps_exec.len()
            invariant
                0 <= m <= ps_exec.len(),
                ps == ps_exec@.map_values(|p: crate::graph::Product| p@),
                buf@ == b3 + concat(dot_edge_lines(ps, m as int)),
            decreases ps_exec.len() - m,
        {
            let p = &ps_exec[m];
            proof {
                assert(ps[m as int] == p@);
            }
            let pid: String = proc_id(p.id);
            let ghost bm = buf@;
            let ghost el = edge_lines(ps[m as int].inputs, ps[m as int].outputs, pid@, " -> "@, ";\n"@);
            let mut a: usize = 0;
            while a < p.inputs.len()
                invariant
                    0 <= a <= p.inputs.len(),
                    buf@ == bm + concat(el.take(a as int)),
                    el == edge_lines(strs(p.inputs@), strs(p.outputs@), pid@, " -> "@, ";\n"@),
                decreases p.inputs.len() - a,
            {
                buf.append("    ");
                buf.append(node_id(p.inputs[a].as_str()).as_str());
                buf.append(" -> ");
                buf.append(pid.as_str());
                buf.append(";\n");
                proof {
                    assert(el.take(a + 1).drop_last() =~= el.take(a as int));
                    assert(el[a as int] == "    "@ + path_node_id(p.inputs@[a as int]@) + " -> "@ + pid@ + ";\n"@);
                }
                a = a + 1;
            }
            let mut b: usize = 0;
            while b < p.outputs.len()
                invariant
                    0 <= b <= p.outputs.len(),
                    buf@ == bm + concat(el.take(p.inputs.len() + b)),
                    el == edge_lines(strs(p.inputs@), strs(p.outputs@), pid@, " -> "@, ";\n"@),
                decreases p.outputs.len() - b,
            {
                buf.append("    ");
                buf.append(pid.as_str());
                buf.append(" -> ");
                buf.append(node_id(p.outputs[b].as_str()).as_str());
                buf.append(";\n");
                proof {
                    assert(el.take(p.inputs.len() + b + 1).drop_last() =~= el.take(p.inputs.len() + b));
                    assert(el[p.inputs.len() + b] == "    "@ + pid@ + " -> "@ + path_node_id(p.outputs@[b as int]@) + ";\n"@);
                }
                b = b + 1;
            }
            proof {
                assert(el.take(p.inputs.len() + p.outputs.len()) =~= el);
                lemma_concat_append(dot_edge_lines(ps, m as int), el);
            }
            m = m + 1;
        }
        buf.append("}");
        buf
    }

    /// The first input of every product that has one.
    fn first_input_paths(&self) -> (r: Vec<String>)
        ensures
            strs(r@) == first_inputs(self@.products),
    {
        let ps = self.products();
        let ghost pv = self@.products;
        let mut r: Vec<String> = Vec::new();
        let mut i: usize = 0;
        while i < ps.len()
            invariant
                0 <= i <= ps.len(),
                pv == ps@.map_values(|p: crate::graph::Product| p@),
                strs(r@) == first_inputs(pv.take(i as int)),
            decreases ps.len() - i,
        {
            proof {
                assert(pv.take(i + 1).drop_last() =~= pv.take(i as int));
                assert(pv[i as int] == ps@[i as int]@);
            }
            if ps[i].inputs.len() > 0 {
                let ghost r0 = strs(r@);
                r.push(ps[i].inputs[0].clone());
                proof {
                    assert(strs(r@) =~= r0.push(ps@[i as int].inputs@[0]@));
                }
            }
            i = i + 1;
        }
        proof {
            assert(pv.take(ps.len() as int) =~= pv);
        }
        r
    }

    /// Appends the Mermaid style lines of the products of processor `name`.
    fn append_styles(&self, buf: &mut String, name: &str, fill: &str)
        ensures
            final(buf)@ == old(buf)@ + concat(style_lines(self@.products, self@.products.len() as int, name@, fill@)),
    {
        let ps = self.products();
        let ghost pv = self@.products;
        let ghost b0 = buf@;
        let mut i: usize = 0;
        while i < ps.len()
            invariant
                0 <= i <= ps.len(),
                pv == ps@.map_values(|p: crate::graph::Product| p@),
                buf@ == b0 + concat(style_lines(pv, i as int, name@, fill@)),
            decreases ps.len() - i,
        {
            proof {
                assert(pv[i as int] == ps@[i as int]@);
            }
            if crate::text::str_eq(ps[i].processor.as_str(), name) {
                let ghost old_buf = buf@;
                buf.append("\n    style ");
                buf.append(proc_id(ps[i].id).as_str());
                buf.append(" fill:");
                buf.append(fill);
                buf.append("\n");
                proof {
                    let l = "\n    style "@ + proc_node_id(pv[i as int].id) + " fill:"@ + fill@ + "\n"@;
                    assert(buf@ =~= old_buf + l);
                    lemma_concat_push(b0, style_lines(pv, i as int, name@, fill@), l);
                }
            }
            i = i + 1;
        }
    }

    /// The graph as a Mermaid flowchart: primary source files only (no
    /// headers), generated files, processors, edges from each primary input
    /// and to each output, and the processor colors; trailing whitespace
    /// trimmed.
    pub fn to_mermaid(&self) -> (r: String)
        ensures
            r@ == mermaid_spec(self@.products),
    {
        let ghost ps = self@.products;
        let srcs: Vec<String> = dedup_exec(&self.first_input_paths());
        let outs: Vec<String> = dedup_exec(&self.all_paths(true));
        let mut buf: String = String::from_str("graph LR\n\n    %% Source files\n");
        let ghost b0 = buf@;
        let mut i: usize = 0;
        while i < srcs.len()
            invariant
                0 <= i <= srcs.len(),
                buf@ == b0 + concat(mermaid_source_lines(strs(srcs@).take(i as int), strs(outs@))),
            decreases srcs.len() - i,
        {
            let f: &str = srcs[i].as_str();
            proof {
                assert(strs(srcs@).take(i + 1).drop_last() =~= strs(srcs@).take(i as int));
                assert(strs(srcs@).take(i + 1).last() == f@);
            }
            if !strings_contain(&outs, f) {
                let ghost old_buf = buf@;
                buf.append("    ");
                buf.append(node_id(f).as_str());
                buf.append("[/\"");
                buf.append(label(f).as_str());
                buf.append("\"/]\n");
                proof {
                    assert(buf@ =~= old_buf + mermaid_file_line(f@));
                    lemma_concat_push(b0, mermaid_source_lines(strs(srcs@).take(i as int), strs(outs@)), mermaid_file_line(f@));
                }
            }
            i = i + 1;
        }
        proof {
            assert(strs(srcs@).take(srcs.len() as int) =~= strs(srcs@));
        }
        buf.append("\n    %% Generated files\n");
        let ghost b1 = buf@;
        let mut j: usize = 0;
        while j < outs.len()
            invariant
                0 <= j <= outs.len(),
                buf@ == b1 + concat(mermaid_file_lines(strs(outs@).take(j as int))),
            decreases outs.len() - j,
        {
            let f: &str = outs[j].as_str();
            let ghost old_buf = buf@;
            buf.append("    ");
            buf.append(node_id(f).as_str());
            buf.append("[/\"");
            buf.append(label(f).as_str());
            buf.append("\"/]\n");
            proof {
                assert(buf@ =~= old_buf + mermaid_file_line(f@));
                assert(mermaid_file_lines(strs(outs@).take(j + 1)) =~= mermaid_file_lines(strs(outs@).take(j as int)).push(
                    mermaid_file_line(f@),
                ));
                lemma_concat_push(b1, mermaid_file_lines(strs(outs@).take(j as int)), mermaid_file_line(f@));
            }
            j = j + 1;
        }
        proof {
            assert(strs(outs@).take(outs.len() as int) =~= strs(outs@));
        }
        buf.append("\n    %% Processors\n");
        let ps_exec = self.products();
        let ghost b2 = buf@;
        let mut k: usize = 0;
        while k < ps_exec.len()
            invariant
                0 <= k <= ps_exec.len(),
                ps == ps_exec@.map_values(|p: crate::graph::Product| p@),
                buf@ == b2 + concat(mermaid_proc_lines(ps, k as int)),
            decreases ps_exec.len() - k,
        {
            let p = &ps_exec[k];
            proof {
                assert(ps[k as int] == p@);
            }
            let ghost old_buf = buf@;
            buf.append("    ");
            buf.append(proc_id(p.id).as_str());
            buf.append("[\"");
            buf.append(p.processor.as_str());
            buf.append("\" ]\n");
            proof {
                let l = "    "@ + proc_node_id(ps[k as int].id) + "[\""@ + ps[k as int].processor + "\" ]\n"@;
                assert(buf@ =~= old_buf + l);
                lemma_concat_push(b2, mermaid_proc_lines(ps, k as int), l);
            }
            k = k + 1;
        }
        buf.append("\n    %% Edges\n");
        let ghost b3 = buf@;
        let mut m: usize = 0;
        while m < ps_exec.len()
            invariant
                0 <= m <= ps_exec.len(),
                ps == ps_exec@.map_values(|p: crate::graph::Product| p@),
                buf@ == b3 + concat(mermaid_edge_lines(ps, m as int)),
            decreases ps_exec.len() - m,
        {
            let p = &ps_exec[m];
            proof {
                assert(ps[m as int] == p@);
            }
            let pid: String = proc_id(p.id);
            let ghost bm = buf@;
            let ghost firsts: Seq<Seq<char>> = if p.inputs@.len() > 0 {
                seq![p.inputs@[0]@]
            } else {
                Seq::empty()
            };
            let ghost el = edge_lines(firsts, strs(p.outputs@), pid@, " --> "@, "\n"@);
            if p.inputs.len() > 0 {
                buf.append("    ");
                buf.append(node_id(p.inputs[0].as_str()).as_str());
                buf.append(" --> ");
                buf.append(pid.as_str());
                buf.append("\n");
                proof {
                    assert(el[0] == "    "@ + path_node_id(p.inputs@[0]@) + " --> "@ + pid@ + "\n"@);
                    assert(el.take(1) =~= seq![el[0]]);
                    assert(seq![el[0]].drop_last() =~= Seq::<Seq<char>>::empty());
                    assert(concat(Seq::<Seq<char>>::empty()) == Seq::<char>::empty());
                    assert(concat(seq![el[0]]) == concat(Seq::<Seq<char>>::empty()) + el[0]);
                    assert(Seq::<char>::empty() + el[0] =~= el[0]);
                    assert(concat(el.take(1)) == el[0]);
                    assert(buf@ =~= bm + el[0]);
                }
            } else {
                proof {
                    assert(el.take(0) =~= Seq::<Seq<char>>::empty());
                    assert(bm + concat(el.take(0)) =~= bm);
                }
            }
            proof {
                assert(buf@ =~= bm + concat(el.take(firsts.len() as int)));
            }
            let mut b: usize = 0;
            while b < p.outputs.len()
                invariant
                    0 <= b <= p.outputs.len(),
                    buf@ == bm + concat(el.take(firsts.len() + b)),
                    el == edge_lines(firsts, strs(p.outputs@), pid@, " --> "@, "\n"@),
                decreases p.outputs.len() - b,
            {
                buf.append("    ");
                buf.append(pid.as_str());
                buf.append(" --> ");
                buf.append(node_id(p.outputs[b].as_str()).as_str());
                buf.append("\n");
                proof {
                    assert(el.take(firsts.len() + b + 1).drop_last() =~= el.take(firsts.len() + b));
                    assert(el[firsts.len() + b] == "    "@ + pid@ + " --> "@ + path_node_id(p.outputs@[b as int]@) + "\n"@);
                }
                b = b + 1;
            }
            proof {
                assert(el.take(firsts.len() + p.outputs.len()) =~= el);
                lemma_concat_append(mermaid_edge_lines(ps, m as int), el);
            }
            m = m + 1;
        }
        self.append_styles(&mut buf, TEMPLATE_PROCESSOR, "#add8e6");
        self.append_styles(&mut buf, SINGLE_FILE_CC_PROCESSOR, "#ffa07a");
        trim_end(buf.as_str())
    }

    /// The text lines of product `id`.
    fn text_lines(&self, id: usize) -> (r: String)
        requires
            self.edges_wf(),
            id < self@.products.len(),
        ensures
            r@ == text_lines_of(self@.products, self@.dependencies, id as int),
    {
        let ps = self.products();
        let ghost pv = self@.products;
        proof {
            assert(pv[id as int] == ps@[id as int]@);
        }
        let p = &ps[id];
        let mut buf: String = String::from_str("[");
        buf.append(p.processor.as_str());
        buf.append("] ");
        buf.append(join_strings(&names_of(&p.inputs), ", ").as_str());
        buf.append(" -> ");
        buf.append(join_strings(&names_of(&p.outputs), ", ").as_str());
        buf.append("\n");
        let ds: &[usize] = self.get_dependencies(id);
        if ds.len() > 0 {
            let ghost deps = self@.dependencies;
            let mut names: Vec<String> = Vec::new();
            let mut k: usize = 0;
            while k < ds.len()
                invariant
                    0 <= k <= ds.len(),
                    ds@ == deps[id as int],
                    deps == self@.dependencies,
                    pv == ps@.map_values(|p: crate::graph::Product| p@),
                    pv == self@.products,
                    self.edges_wf(),
                    id < pv.len(),
                    strs(names@) == ds@.take(k as int).map_values(|d: usize| join(file_names(pv[d as int].outputs), ", "@)),
                decreases ds.len() - k,
            {
                let d: usize = ds[k];
                proof {
                    assert(deps[id as int][k as int] == d);
                    assert(edges_ok(self@));
                    assert(self@.dependencies[id as int][k as int] < self@.products.len());
                    assert(pv.len() == ps@.len());
                    assert(pv[d as int] == ps@[d as int]@);
                }
                let ghost n0 = strs(names@);
                names.push(join_strings(&names_of(&ps[d].outputs), ", "));
                proof {
                    assert(strs(names@) =~= n0.push(join(file_names(pv[d as int].outputs), ", "@)));
                    assert(ds@.take(k + 1).map_values(|d: usize| join(file_names(pv[d as int].outputs), ", "@)) =~= ds@.take(
                        k as int,
                    ).map_values(|d: usize| join(file_names(pv[d as int].outputs), ", "@)).push(
                        join(file_names(pv[d as int].outputs), ", "@),
                    ));
                }
                k = k + 1;
            }
            proof {
                assert(ds@.take(ds.len() as int) =~= ds@);
            }
            buf.append("    depends on: ");
            buf.append(join_strings(&names, ", ").as_str());
            buf.append("\n");
        }
        buf
    }

    /// The graph as plain text: a title, then, in the dependency order that
    /// lists the smallest ready product first, one line per product (its
    /// processor, input names and output names) with the outputs of its
    /// dependencies; an error line instead when there is a cycle, and
    /// `(empty graph)` for no products. Trailing whitespace is trimmed.
    pub fn to_text(&self) -> (r: String)
        requires
            self.edges_wf(),
        ensures
            r@ == text_spec(self@.products, self@.dependencies),
    {
        let ghost ps = self@.products;
        let ghost deps = self@.dependencies;
        let mut buf: String = String::from_str("Build Dependency Graph\n======================\n");
        let order: Vec<usize> = match self.topological_sort() {
            Ok(o) => o,
            Err(_) => {
                buf.append("Error: Cycle detected in graph\n");
                return trim_end(buf.as_str());
            },
        };
        proof {
            lemma_least_order_unique(deps, order@, order@);
        }
        let ghost b0 = buf@;
        let mut i: usize = 0;
        while i < order.len()
            invariant
                0 <= i <= order.len(),
                self.edges_wf(),
                ps == self@.products,
                deps == self@.dependencies,
                is_topological_order(deps, order@),
                order@ == least_order(deps),
                buf@ == b0 + text_body(ps, deps, order@, i as int),
            decreases order.len() - i,
        {
            let id: usize = order[i];
            let line: String = self.text_lines(id);
            buf.append(line.as_str());
            proof {
                assert(b0 + text_body(ps, deps, order@, i + 1) =~= b0 + text_body(ps, deps, order@, i as int) + line@);
            }
            i = i + 1;
        }
        if self.products().len() == 0 {
            buf.append("(empty graph)\n");
        }
        proof {
            assert(has_topological_order(deps));
            if ps.len() != 0 {
                assert(buf@ =~= b0 + text_body(ps, deps, order@, order@.len() as int) + Seq::<char>::empty());
            }
        }
        trim_end(buf.as_str())
    }

    /// The graph as a self-contained HTML page drawing its Mermaid
    /// flowchart.
    pub fn to_html(&self) -> (r: String)
        ensures
            r@ == html_prefix() + mermaid_spec(self@.products) + html_suffix(),
    {
        let mermaid: String = self.to_mermaid();
        let mut r: String = String::from_str(
            "<!DOCTYPE html>\n<html>\n<head>\n    <meta charset=\"UTF-8\">\n    <title>RSConstruct Build Graph</title>\n    <script src=\"https://cdn.jsdelivr.net/npm/mermaid/dist/mermaid.min.js\"></script>\n    <style>\n        body {\n            font-family: -apple-system, BlinkMacSystemFont, 'Segoe UI', Roboto, sans-serif;\n            margin: 40px;\n            background: #f5f5f5;\n        }\n        h1 {\n            color: #333;\n        }\n        .mermaid {\n            background: white;\n            padding: 20px;\n            border-radius: 8px;\n            box-shadow: 0 2px 4px rgba(0,0,0,0.1);\n        }\n    </style>\n</head>\n<body>\n    <h1>RSConstruct Build Graph</h1>\n    <div class=\"mermaid\">\n",
        );
        r.append(mermaid.as_str());
        r.append(
            "\n    </div>\n    <script>\n        mermaid.initialize({ startOnLoad: true, theme: 'default', maxTextSize: 500000 });\n    </script>\n</body>\n</html>\n",
        );
        r
    }
}

/// Appending a line to the list appends its text.
pub proof fn lemma_concat_push(prefix: Seq<char>, lines: Seq<Seq<char>>, l: Seq<char>)
    ensures
        prefix + concat(lines.push(l)) == (prefix + concat(lines)) + l,
{
    assert(lines.push(l).drop_last() =~= lines);
    assert(prefix + concat(lines.push(l)) =~= (prefix + concat(lines)) + l);
}

/// Concatenating two lists of lines concatenates their texts.
pub proof fn lemma_concat_append(a: Seq<Seq<char>>, b: Seq<Seq<char>>)
    ensures
        concat(a + b) == concat(a) + concat(b),
    decreases b.len(),
{
    if b.len() == 0 {
        assert(a + b =~= a);
        assert(concat(a) + concat(b) =~= concat(a));
    } else {
        lemma_concat_append(a, b.drop_last());
        assert((a + b).drop_last() =~= a + b.drop_last());
        assert(concat(a) + concat(b.drop_last()) + b.last() =~= concat(a) + (concat(b.drop_last()) + b.last()));
    }
}

/// `line` occurs in `text`.
pub open spec fn has_line(text: Seq<char>, line: Seq<char>) -> bool {
    exists|a: Seq<char>, b: Seq<char>| #[trigger] (a + line + b) == text
}

/// The text of a list of lines holds each of them.
pub proof fn lemma_concat_has_line(lines: Seq<Seq<char>>, i: int)
    requires
        0 <= i < lines.len(),
    ensures
        concat(lines) == concat(lines.take(i)) + lines[i] + concat(lines.skip(i + 1)),
{
    let a = lines.take(i);
    let b = lines.skip(i + 1);
    assert(lines =~= (a + seq![lines[i]]) + b);
    lemma_concat_append(a + seq![lines[i]], b);
    lemma_concat_append(a, seq![lines[i]]);
    let one = seq![lines[i]];
    assert(one.drop_last() =~= Seq::<Seq<char>>::empty());
    assert(one.last() == lines[i]);
    assert(concat(one.drop_last()) == Seq::<char>::empty());
    assert(concat(one) =~= lines[i]);
}

/// The DOT edge line from a file to a product, or from a product to a
/// file.
pub open spec fn dot_in_edge(f: Seq<char>, id: nat) -> Seq<char> {
    "    "@ + path_node_id(f) + " -> "@ + proc_node_id(id) + ";\n"@
}

pub open spec fn dot_out_edge(id: nat, f: Seq<char>) -> Seq<char> {
    "    "@ + proc_node_id(id) + " -> "@ + path_node_id(f) + ";\n"@
}

/// The edge lines of the first `m` products hold an edge from each input
/// and to each output of each of them.
proof fn lemma_dot_edges_listed(ps: Seq<ProductView>, m: int)
    requires
        0 <= m <= ps.len(),
    ensures
        forall|p: int, k: int|
            0 <= p < m && 0 <= k < ps[p].inputs.len() ==> dot_edge_lines(ps, m).contains(
                dot_in_edge(#[trigger] ps[p].inputs[k], ps[p].id),
            ),
        forall|p: int, k: int|
            0 <= p < m && 0 <= k < ps[p].outputs.len() ==> dot_edge_lines(ps, m).contains(
                dot_out_edge(ps[p].id, #[trigger] ps[p].outputs[k]),
            ),
    decreases m,
{
    if m > 0 {
        lemma_dot_edges_listed(ps, m - 1);
        let prev = dot_edge_lines(ps, m - 1);
        let q = ps[m - 1];
        let e = edge_lines(q.inputs, q.outputs, proc_node_id(q.id), " -> "@, ";\n"@);
        let cur = dot_edge_lines(ps, m);
        assert(cur == prev + e);
        assert forall|p: int, k: int|
            0 <= p < m && 0 <= k < ps[p].inputs.len() implies cur.contains(dot_in_edge(#[trigger] ps[p].inputs[k], ps[p].id)) by {
            if p < m - 1 {
                let j = choose|j: int| 0 <= j < prev.len() && prev[j] == dot_in_edge(ps[p].inputs[k], ps[p].id);
                assert(cur[j] == prev[j]);
            } else {
                assert(e[k] == dot_in_edge(ps[p].inputs[k], ps[p].id));
                assert(cur[prev.len() + k] == e[k]);
            }
        }
        assert forall|p: int, k: int|
            0 <= p < m && 0 <= k < ps[p].outputs.len() implies cur.contains(dot_out_edge(ps[p].id, #[trigger] ps[p].outputs[k])) by {
            if p < m - 1 {
                let j = choose|j: int| 0 <= j < prev.len() && prev[j] == dot_out_edge(ps[p].id, ps[p].outputs[k]);
                assert(cur[j] == prev[j]);
            } else {
                let w = q.inputs.len() + k;
                assert(e[w] == dot_out_edge(ps[p].id, ps[p].outputs[k]));
                assert(cur[prev.len() + w] == e[w]);
            }
        }
    }
}

/// The shape of the DOT rendering: it opens the `build_graph` digraph laid
/// out left to right, closes it with `}`, and has the line `f -> proc_N;`
/// for each input `f` of each product `N`, and `proc_N -> f;` for each of
/// its outputs.
pub proof fn lemma_dot_shape(ps: Seq<ProductView>)
    ensures
        dot_spec(ps).take(38) == "digraph build_graph {\n    rankdir=LR;\n"@,
        dot_spec(ps).last() == '}',
        forall|p: int, k: int|
            0 <= p < ps.len() && 0 <= k < ps[p].inputs.len() ==> has_line(dot_spec(ps), dot_in_edge(#[trigger] ps[p].inputs[k], ps[p].id)),
        forall|p: int, k: int|
            0 <= p < ps.len() && 0 <= k < ps[p].outputs.len() ==> has_line(
                dot_spec(ps),
                dot_out_edge(ps[p].id, #[trigger] ps[p].outputs[k]),
            ),
{
    let n = ps.len() as int;
    let ins = dedup(all_inputs(ps));
    let outs = dedup(all_outputs(ps));
    let head: Seq<char> = "digraph build_graph {\n    rankdir=LR;\n\n    // Source files\n"@ + concat(source_lines(ins, outs))
        + "\n    // Generated files\n"@ + concat(generated_lines(outs, ins)) + "\n    // Processors\n"@ + concat(
        dot_proc_lines(ps, n),
    ) + "\n    // Edges\n"@;
    let edges = dot_edge_lines(ps, n);
    assert(dot_spec(ps) == head + concat(edges) + "}"@);
    reveal_strlit("digraph build_graph {\n    rankdir=LR;\n\n    // Source files\n");
    reveal_strlit("digraph build_graph {\n    rankdir=LR;\n");
    reveal_strlit("}");
    assert(dot_spec(ps).take(38) =~= "digraph build_graph {\n    rankdir=LR;\n"@);
    lemma_dot_edges_listed(ps, n);
    assert forall|p: int, k: int|
        0 <= p < ps.len() && 0 <= k < ps[p].inputs.len() implies has_line(dot_spec(ps), dot_in_edge(#[trigger] ps[p].inputs[k], ps[p].id)) by {
        let l = dot_in_edge(ps[p].inputs[k], ps[p].id);
        let j = choose|j: int| 0 <= j < edges.len() && edges[j] == l;
        lemma_concat_has_line(edges, j);
        let a = head + concat(edges.take(j));
        let b = concat(edges.skip(j + 1)) + "}"@;
        assert(a + l + b =~= dot_spec(ps));
    }
    assert forall|p: int, k: int|
        0 <= p < ps.len() && 0 <= k < ps[p].outputs.len() implies has_line(dot_spec(ps), dot_out_edge(ps[p].id, #[trigger] ps[p].outputs[k])) by {
        let l = dot_out_edge(ps[p].id, ps[p].outputs[k]);
        let j = choose|j: int| 0 <= j < edges.len() && edges[j] == l;
        lemma_concat_has_line(edges, j);
        let a = head + concat(edges.take(j));
        let b = concat(edges.skip(j + 1)) + "}"@;
        assert(a + l + b =~= dot_spec(ps));
    }
}

/// Trimming trailing whitespace keeps every character up to a
/// non-whitespace one.
pub proof fn lemma_trim_end_keeps(s: Seq<char>, k: int)
    requires
        1 <= k <= s.len(),
        !crate::text::is_ws(s[k - 1]),
    ensures
        k <= trim_end_spec(s).len() <= s.len(),
        trim_end_spec(s) == s.take(trim_end_spec(s).len() as int),
    decreases s.len(),
{
    if s.len() > 0 && crate::text::is_ws(s.last()) {
        assert(s.len() > k);
        assert(s.drop_last()[k - 1] == s[k - 1]);
        lemma_trim_end_keeps(s.drop_last(), k);
        let t = trim_end_spec(s.drop_last());
        assert(s.drop_last().take(t.len() as int) =~= s.take(t.len() as int));
    } else {
        assert(s.take(s.len() as int) =~= s);
    }
}

/// The Mermaid edge from a product's primary input, and to an output.
pub open spec fn mermaid_in_edge(f: Seq<char>, id: nat) -> Seq<char> {
    "    "@ + path_node_id(f) + " --> "@ + proc_node_id(id)
}

pub open spec fn mermaid_out_edge(id: nat, f: Seq<char>) -> Seq<char> {
    "    "@ + proc_node_id(id) + " --> "@ + path_node_id(f)
}

/// The Mermaid edge lines of the first `m` products hold the edge from
/// each one's primary input and to each of its outputs.
proof fn lemma_mermaid_edges_listed(ps: Seq<ProductView>, m: int)
    requires
        0 <= m <= ps.len(),
    ensures
        forall|p: int|
            0 <= p < m && (#[trigger] ps[p]).inputs.len() > 0 ==> mermaid_edge_lines(ps, m).contains(
                mermaid_in_edge(ps[p].inputs[0], ps[p].id) + "\n"@,
            ),
        forall|p: int, k: int|
            0 <= p < m && 0 <= k < ps[p].outputs.len() ==> mermaid_edge_lines(ps, m).contains(
                mermaid_out_edge(ps[p].id, #[trigger] ps[p].outputs[k]) + "\n"@,
            ),
    decreases m,
{
    if m > 0 {
        lemma_mermaid_edges_listed(ps, m - 1);
        let prev = mermaid_edge_lines(ps, m - 1);
        let q = ps[m - 1];
        let ins = if q.inputs.len() > 0 {
            seq![q.inputs[0]]
        } else {
            Seq::empty()
        };
        let e = edge_lines(ins, q.outputs, proc_node_id(q.id), " --> "@, "\n"@);
        let cur = mermaid_edge_lines(ps, m);
        assert(cur == prev + e);
        assert forall|p: int|
            0 <= p < m && (#[trigger] ps[p]).inputs.len() > 0 implies cur.contains(mermaid_in_edge(ps[p].inputs[0], ps[p].id) + "\n"@) by {
            if p < m - 1 {
                let j = choose|j: int| 0 <= j < prev.len() && prev[j] == mermaid_in_edge(ps[p].inputs[0], ps[p].id) + "\n"@;
                assert(cur[j] == prev[j]);
            } else {
                assert(e[0] =~= mermaid_in_edge(ps[p].inputs[0], ps[p].id) + "\n"@);
                assert(cur[prev.len() as int] == e[0]);
            }
        }
        assert forall|p: int, k: int|
            0 <= p < m && 0 <= k < ps[p].outputs.len() implies cur.contains(
                mermaid_out_edge(ps[p].id, #[trigger] ps[p].outputs[k]) + "\n"@,
            ) by {
            if p < m - 1 {
                let j = choose|j: int| 0 <= j < prev.len() && prev[j] == mermaid_out_edge(ps[p].id, ps[p].outputs[k]) + "\n"@;
                assert(cur[j] == prev[j]);
            } else {
                let w = ins.len() + k;
                assert(e[w] =~= mermaid_out_edge(ps[p].id, ps[p].outputs[k]) + "\n"@);
                assert(cur[prev.len() + w] == e[w]);
            }
        }
    }
}

/// A line of the untrimmed text that ends in a non-whitespace character
/// stays in the trimmed text.
proof fn lemma_line_survives_trim(a: Seq<char>, l: Seq<char>, b: Seq<char>)
    requires
        l.len() > 0,
        !crate::text::is_ws(l.last()),
    ensures
        has_line(trim_end_spec(a + l + b), l),
{
    let s = a + l + b;
    let k: int = (a.len() + l.len()) as int;
    assert(s[k - 1] == l.last());
    lemma_trim_end_keeps(s, k);
    let t = trim_end_spec(s);
    let rest = s.subrange(k, t.len() as int);
    assert(a + l + rest =~= t);
}

/// The Mermaid rendering before its trailing whitespace is trimmed.
pub open spec fn mermaid_untrimmed(ps: Seq<ProductView>) -> Seq<char> {
    let srcs = dedup(first_inputs(ps));
    let outs = dedup(all_outputs(ps));
    let n = ps.len() as int;
    "graph LR\n\n    %% Source files\n"@ + concat(mermaid_source_lines(srcs, outs)) + "\n    %% Generated files\n"@
        + concat(mermaid_file_lines(outs)) + "\n    %% Processors\n"@ + concat(mermaid_proc_lines(ps, n))
        + "\n    %% Edges\n"@ + concat(mermaid_edge_lines(ps, n)) + concat(style_lines(ps, n, TEMPLATE_PROCESSOR@, "#add8e6"@))
        + concat(style_lines(ps, n, SINGLE_FILE_CC_PROCESSOR@, "#ffa07a"@))
}

/// An edge line that ends in a non-whitespace character is a line of the
/// rendering.
proof fn lemma_mermaid_line(ps: Seq<ProductView>, l: Seq<char>)
    requires
        mermaid_edge_lines(ps, ps.len() as int).contains(l + "\n"@),
        l.len() > 0,
        !crate::text::is_ws(l.last()),
    ensures
        has_line(mermaid_spec(ps), l),
{
    let n = ps.len() as int;
    let srcs = dedup(first_inputs(ps));
    let outs = dedup(all_outputs(ps));
    let head: Seq<char> = "graph LR\n\n    %% Source files\n"@ + concat(mermaid_source_lines(srcs, outs))
        + "\n    %% Generated files\n"@ + concat(mermaid_file_lines(outs)) + "\n    %% Processors\n"@ + concat(
        mermaid_proc_lines(ps, n),
    ) + "\n    %% Edges\n"@;
    let edges = mermaid_edge_lines(ps, n);
    let s1 = concat(style_lines(ps, n, TEMPLATE_PROCESSOR@, "#add8e6"@));
    let s2 = concat(style_lines(ps, n, SINGLE_FILE_CC_PROCESSOR@, "#ffa07a"@));
    let full = mermaid_untrimmed(ps);
    assert(full == head + concat(edges) + s1 + s2);
    let j = choose|j: int| 0 <= j < edges.len() && edges[j] == l + "\n"@;
    lemma_concat_has_line(edges, j);
    let a = head + concat(edges.take(j));
    let b = "\n"@ + concat(edges.skip(j + 1)) + s1 + s2;
    assert(a + l + b =~= full);
    lemma_line_survives_trim(a, l, b);
}

/// The Mermaid rendering starts with `graph LR`.
proof fn lemma_mermaid_head(ps: Seq<ProductView>)
    ensures
        mermaid_spec(ps).take(9) == "graph LR\n"@,
{
    let full = mermaid_untrimmed(ps);
    reveal_strlit("graph LR\n\n    %% Source files\n");
    reveal_strlit("graph LR\n");
    assert(full[14] == '%');
    lemma_trim_end_keeps(full, 15);
    assert(mermaid_spec(ps).take(9) =~= "graph LR\n"@);
}

/// The shape of the Mermaid rendering: it starts with `graph LR`, and has
/// the edge from each product's primary input to it and, for each output
/// whose node id does not end in whitespace, the edge from it to the
/// output.
pub proof fn lemma_mermaid_shape(ps: Seq<ProductView>)
    ensures
        mermaid_spec(ps).take(9) == "graph LR\n"@,
        forall|p: int|
            0 <= p < ps.len() && (#[trigger] ps[p]).inputs.len() > 0 ==> has_line(
                mermaid_spec(ps),
                mermaid_in_edge(ps[p].inputs[0], ps[p].id),
            ),
        forall|p: int, k: int|
            0 <= p < ps.len() && 0 <= k < ps[p].outputs.len() && path_node_id(#[trigger] ps[p].outputs[k]).len() > 0
                && !crate::text::is_ws(path_node_id(ps[p].outputs[k]).last()) ==> has_line(
                mermaid_spec(ps),
                mermaid_out_edge(ps[p].id, ps[p].outputs[k]),
            ),
{
    lemma_mermaid_head(ps);
    lemma_mermaid_edges_listed(ps, ps.len() as int);
    assert forall|p: int|
        0 <= p < ps.len() && (#[trigger] ps[p]).inputs.len() > 0 implies has_line(
            mermaid_spec(ps),
            mermaid_in_edge(ps[p].inputs[0], ps[p].id),
        ) by {
        let l = mermaid_in_edge(ps[p].inputs[0], ps[p].id);
        lemma_proc_id_ends_in_digit(ps[p].id);
        assert(l.last() == proc_node_id(ps[p].id).last());
        lemma_mermaid_line(ps, l);
    }
    assert forall|p: int, k: int|
        0 <= p < ps.len() && 0 <= k < ps[p].outputs.len() && path_node_id(#[trigger] ps[p].outputs[k]).len() > 0
            && !crate::text::is_ws(path_node_id(ps[p].outputs[k]).last()) implies has_line(
            mermaid_spec(ps),
            mermaid_out_edge(ps[p].id, ps[p].outputs[k]),
        ) by {
        let l = mermaid_out_edge(ps[p].id, ps[p].outputs[k]);
        assert(l.last() == path_node_id(ps[p].outputs[k]).last());
        lemma_mermaid_line(ps, l);
    }
}

/// A product's node id ends in a digit.
proof fn lemma_proc_id_ends_in_digit(id: nat)
    ensures
        !crate::text::is_ws(proc_node_id(id).last()),
        proc_node_id(id).len() > 0,
{
    let d = decimal(id);
    if id < 10 {
        assert(d.last() == digit_char(id));
    } else {
        assert(d.last() == digit_char(id % 10));
    }
    assert(proc_node_id(id).last() == d.last());
}

/// A list of texts as a JSON array of strings.
pub open spec fn json_strings(v: Seq<Seq<char>>) -> JsonView {
    JsonView::Array(v.map_values(|s: Seq<char>| JsonView::String(s)))
}

/// A list of product ids as a JSON array of numbers.
pub open spec fn json_ids(v: Seq<usize>) -> JsonView {
    JsonView::Array(v.map_values(|d: usize| JsonView::Number(decimal(d as nat))))
}

/// A product as a JSON object, members in key order: the ids it depends
/// on, its id, inputs, outputs and processor.
pub open spec fn product_json(p: ProductView, deps: Seq<usize>) -> JsonView {
    JsonView::Object(
        seq![
            ("depends_on"@, json_ids(deps)),
            ("id"@, JsonView::Number(decimal(p.id))),
            ("inputs"@, json_strings(p.inputs)),
            ("outputs"@, json_strings(p.outputs)),
            ("processor"@, JsonView::String(p.processor)),
        ],
    )
}

/// The graph as a JSON document: an object whose `products` member lists
/// every product in id order, each with the dependency row under its id.
pub open spec fn graph_json(ps: Seq<ProductView>, deps: Seq<Seq<usize>>) -> JsonView {
    JsonView::Object(
        seq![("products"@, JsonView::Array(ps.map_values(|p: ProductView| product_json(p, deps[p.id as int]))))],
    )
}

/// A list of texts as a JSON array of strings.
fn json_string_list(v: &Vec<String>) -> (r: JsonValue)
    ensures
        json_view(r) == json_strings(strs(v@)),
{
    let mut items: Vec<JsonValue> = Vec::new();
    let mut i: usize = 0;
    while i < v.len()
        invariant
            0 <= i <= v.len(),
            items@.len() == i,
            items_view(items@, i as int) == strs(v@).take(i as int).map_values(|s: Seq<char>| JsonView::String(s)),
        decreases v.len() - i,
    {
        let x: JsonValue = JsonValue::String(clone_string(&v[i]));
        let ghost before = items@;
        items.push(x);
        proof {
            lemma_items_view_push(before, x);
            assert(strs(v@).take(i + 1).map_values(|s: Seq<char>| JsonView::String(s)) =~= strs(v@).take(
                i as int,
            ).map_values(|s: Seq<char>| JsonView::String(s)).push(JsonView::String(v@[i as int]@)));
        }
        i = i + 1;
    }
    proof {
        assert(strs(v@).take(v.len() as int) =~= strs(v@));
    }
    JsonValue::Array(items)
}

/// A list of product ids as a JSON array of numbers.
fn json_id_list(v: &[usize]) -> (r: JsonValue)
    ensures
        json_view(r) == json_ids(v@),
{
    let mut items: Vec<JsonValue> = Vec::new();
    let mut i: usize = 0;
    while i < v.len()
        invariant
            0 <= i <= v.len(),
            items@.len() == i,
            items_view(items@, i as int) == v@.take(i as int).map_values(
                |d: usize| JsonView::Number(decimal(d as nat)),
            ),
        decreases v.len() - i,
    {
        let x: JsonValue = JsonValue::Number(usize_to_string(v[i]));
        let ghost before = items@;
        items.push(x);
        proof {
            lemma_items_view_push(before, x);
            assert(v@.take(i + 1).map_values(|d: usize| JsonView::Number(decimal(d as nat))) =~= v@.take(
                i as int,
            ).map_values(|d: usize| JsonView::Number(decimal(d as nat))).push(
                JsonView::Number(decimal(v@[i as int] as nat)),
            ));
        }
        i = i + 1;
    }
    proof {
        assert(v@.take(v.len() as int) =~= v@);
    }
    JsonValue::Array(items)
}

impl BuildGraph {
    /// One product as a JSON object.
    fn product_node(&self, p: &Product) -> (r: JsonValue)
        requires
            self.edges_wf(),
            p.id < self@.products.len(),
        ensures
            json_view(r) == product_json(p@, self@.dependencies[p.id as int]),
    {
        let deps: &[usize] = self.get_dependencies(p.id);
        let mut m: Vec<(String, JsonValue)> = Vec::new();
        m.push((String::from_str("depends_on"), json_id_list(deps)));
        m.push((String::from_str("id"), JsonValue::Number(usize_to_string(p.id))));
        m.push((String::from_str("inputs"), json_string_list(&p.inputs)));
        m.push((String::from_str("outputs"), json_string_list(&p.outputs)));
        m.push((String::from_str("processor"), JsonValue::String(clone_string(&p.processor))));
        proof {
            reveal_with_fuel(members_view, 6);
            assert(members_view(m@, 5) =~= seq![
                ("depends_on"@, json_ids(self@.dependencies[p.id as int])),
                ("id"@, JsonView::Number(decimal(p.id as nat))),
                ("inputs"@, json_strings(p@.inputs)),
                ("outputs"@, json_strings(p@.outputs)),
                ("processor"@, JsonView::String(p@.processor)),
            ]);
        }
        JsonValue::Object(m)
    }

    /// The graph as indented JSON: an object whose `products` member lists
    /// every product in id order with its id, processor, inputs, outputs and
    /// the ids it depends on.
    pub fn to_json(&self) -> (r: String)
        requires
            self.edges_wf(),
            forall|i: int| 0 <= i < self@.products.len() ==> (#[trigger] self@.products[i]).id < self@.products.len(),
        ensures
            r@ == json_pretty_text(graph_json(self@.products, self@.dependencies)),
    {
        let ps = self.products();
        let ghost pv = self@.products;
        let ghost deps = self@.dependencies;
        let mut nodes: Vec<JsonValue> = Vec::new();
        let mut i: usize = 0;
        while i < ps.len()
            invariant
                0 <= i <= ps.len(),
                pv == ps@.map_values(|p: Product| p@),
                pv == self@.products,
                deps == self@.dependencies,
                self.edges_wf(),
                forall|j: int| 0 <= j < pv.len() ==> (#[trigger] pv[j]).id < pv.len(),
                nodes@.len() == i,
                items_view(nodes@, i as int) == pv.take(i as int).map_values(
                    |p: ProductView| product_json(p, deps[p.id as int]),
                ),
            decreases ps.len() - i,
        {
            assert(pv[i as int] == ps@[i as int]@);
            let x: JsonValue = self.product_node(&ps[i]);
            let ghost before = nodes@;
            nodes.push(x);
            proof {
                lemma_items_view_push(before, x);
                assert(pv.take(i + 1).map_values(|p: ProductView| product_json(p, deps[p.id as int])) =~= pv.take(
                    i as int,
                ).map_values(|p: ProductView| product_json(p, deps[p.id as int])).push(
                    product_json(pv[i as int], deps[pv[i as int].id as int]),
                ));
            }
            i = i + 1;
        }
        proof {
            assert(pv.take(ps.len() as int) =~= pv);
        }
        let mut root: Vec<(String, JsonValue)> = Vec::new();
        root.push((String::from_str("products"), JsonValue::Array(nodes)));
        proof {
            reveal_with_fuel(members_view, 2);
            assert(members_view(root@, 1) =~= seq![
                ("products"@, JsonView::Array(pv.map_values(|p: ProductView| product_json(p, deps[p.id as int])))),
            ]);
        }
        json_to_string_pretty(&JsonValue::Object(root))
    }
}

/// The first `k` product line groups are a prefix of the first `m`.
proof fn lemma_text_body_prefix(ps: Seq<ProductView>, deps: Seq<Seq<usize>>, order: Seq<usize>, k: int, m: int) -> (r: Seq<char>)
    requires
        0 <= k <= m,
    ensures
        text_body(ps, deps, order, m) == text_body(ps, deps, order, k) + r,
    decreases m,
{
    if m == k {
        assert(text_body(ps, deps, order, m) =~= text_body(ps, deps, order, k) + Seq::<char>::empty());
        Seq::empty()
    } else {
        let r0 = lemma_text_body_prefix(ps, deps, order, k, m - 1);
        let r = r0 + text_lines_of(ps, deps, order[m - 1] as int);
        assert(text_body(ps, deps, order, m) =~= text_body(ps, deps, order, k) + r);
        r
    }
}

/// The product line groups end with a line break.
proof fn lemma_text_body_ends_in_newline(ps: Seq<ProductView>, deps: Seq<Seq<usize>>, order: Seq<usize>, m: int)
    requires
        m > 0,
    ensures
        text_body(ps, deps, order, m).len() > 0,
        text_body(ps, deps, order, m).last() == '\n',
{
    reveal_strlit("\n");
    let id = order[m - 1] as int;
    let l = text_lines_of(ps, deps, id);
    assert(l.len() > 0 && l.last() == '\n');
}

/// What trimming keeps of a text ends in a character that is not
/// whitespace.
proof fn lemma_trim_end_last(s: Seq<char>)
    ensures
        trim_end_spec(s).len() > 0 ==> !crate::text::is_ws(trim_end_spec(s).last()),
    decreases s.len(),
{
    if s.len() > 0 && crate::text::is_ws(s.last()) {
        lemma_trim_end_last(s.drop_last());
    }
}

/// Trimming the end of a text keeps a line that starts with a character
/// other than whitespace, up to its own last such character.
proof fn lemma_trim_keeps_line(p0: Seq<char>, nl: Seq<char>, line: Seq<char>, rest: Seq<char>)
    requires
        line.len() > 0,
        !crate::text::is_ws(line[0]),
    ensures
        has_line(trim_end_spec(p0 + (nl + line) + rest), nl + trim_end_spec(line)),
{
    let x = p0 + (nl + line) + rest;
    lemma_trim_end_keeps(line, 1);
    lemma_trim_end_last(line);
    let th = trim_end_spec(line);
    let k: int = (p0.len() + nl.len() + th.len()) as int;
    assert(x[k - 1] == line[th.len() - 1]);
    assert(x[k - 1] == th.last());
    lemma_trim_end_keeps(x, k);
    let tt = trim_end_spec(x);
    let b = x.subrange(k, tt.len() as int);
    assert(tt =~= p0 + (nl + th) + b);
}

/// What the plain-text rendering shows of a product: `[processor] `, the
/// file names of its inputs, ` -> `, the file names of its outputs.
pub open spec fn product_text_line(p: ProductView) -> Seq<char> {
    "["@ + p.processor + "] "@ + join(file_names(p.inputs), ", "@) + " -> "@ + join(file_names(p.outputs), ", "@)
}

/// The header and the product lines up to position `n` of `order` hold
/// the line of the product at position `t` right after a line break.
proof fn lemma_body_splits_at(ps: Seq<ProductView>, deps: Seq<Seq<usize>>, order: Seq<usize>, t: int, n: int) -> (pr: (
    Seq<char>,
    Seq<char>,
))
    requires
        0 <= t < n,
    ensures
        "Build Dependency Graph\n======================\n"@ + text_body(ps, deps, order, n) == pr.0 + ("\n"@
            + product_text_line(ps[order[t] as int])) + pr.1,
{
    let i = order[t] as int;
    let header = "Build Dependency Graph\n======================\n"@;
    assert(header.len() > 0 && header.last() == '\n') by {
        reveal_strlit("Build Dependency Graph\n======================\n");
    }
    let nl = "\n"@;
    assert(nl =~= seq!['\n']) by {
        reveal_strlit("\n");
    }
    let line = product_text_line(ps[i]);
    let l = text_lines_of(ps, deps, i);
    let more = l.skip(line.len() + 1int);
    assert(l =~= line + nl + more);
    assert(text_body(ps, deps, order, t + 1) == text_body(ps, deps, order, t) + l);
    let r = lemma_text_body_prefix(ps, deps, order, t + 1, n);
    let p = header + text_body(ps, deps, order, t);
    if t > 0 {
        lemma_text_body_ends_in_newline(ps, deps, order, t);
    }
    assert(p.len() > 0 && p.last() == '\n');
    let p0 = p.drop_last();
    assert(p =~= p0 + nl);
    assert(header + text_body(ps, deps, order, n) =~= p + l + r);
    assert(header + text_body(ps, deps, order, n) =~= p0 + (nl + line) + (nl + more + r));
    (p0, nl + more + r)
}

/// In the plain-text rendering of a graph with a dependency order, every
/// product has a line of its own, right after a line break: `[processor] `,
/// the file names of its inputs, ` -> `, the file names of its outputs
/// (trailing whitespace trimmed).
pub proof fn lemma_text_has_product_line(ps: Seq<ProductView>, deps: Seq<Seq<usize>>, order: Seq<usize>, i: int)
    requires
        is_topological_order(deps, order),
        is_least_first(deps, order),
        deps.len() == ps.len(),
        ps.len() <= usize::MAX,
        0 <= i < ps.len(),
    ensures
        has_line(text_spec(ps, deps), "\n"@ + trim_end_spec(product_text_line(ps[i]))),
{
    let n = order.len() as int;
    lemma_least_order_unique(deps, order, order);
    assert(has_topological_order(deps));
    assert(order.contains(i as usize));
    let t = choose|t: int| 0 <= t < order.len() && order[t] == i as usize;
    assert(order[t] as int == i);
    let pr = lemma_body_splits_at(ps, deps, order, t, n);
    let x = "Build Dependency Graph\n======================\n"@ + text_body(ps, deps, order, n);
    assert(x + Seq::<char>::empty() =~= x);
    assert(text_spec(ps, deps) == trim_end_spec(x));
    let line = product_text_line(ps[i]);
    assert(line.len() > 0 && line[0] == '[') by {
        reveal_strlit("[");
    }
    lemma_trim_keeps_line(pr.0, "\n"@, line, pr.1);
}

} // verus!
