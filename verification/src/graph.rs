//! The build graph: products, the paths they read and write, and the
//! dependency edges between them.

use vstd::prelude::*;
use crate::cache_key::{CacheKey, KeyComponent};
use crate::exit_code::{RsconstructError, RsconstructExitCode};
use crate::order::{ready, is_topological_order, is_least_first, has_topological_order, num_unplaced, unplaced_count, lemma_num_unplaced_all, lemma_num_unplaced_place, lemma_num_unplaced_zero, lemma_num_unplaced_positive, lemma_unplaced_all, lemma_unplaced_place, lemma_unplaced_zero, lemma_count_take_le, lemma_stuck_set_blocks_order};
use crate::glob_match::{GlobPattern, compile_glob, glob_match, glob_matches, glob_parse_error, glob_sources};
use crate::exit_code::{ErrorChain, ErrorLink};
use crate::config::GraphConfig;
use crate::display::{minimal_options, DisplayOptions, OutputDisplay, InputDisplay, PathFormat, format_path, format_path_spec, format_paths, formatted};
use crate::checksum::{hash_parts, hash_parts_spec};
use crate::lexical::{sorted_insert, strictly_sorted};
use crate::text::{decimal, usize_to_string, join, join_strings, strs, opt_str, opt_slice, clone_string, clone_strings, clone_opt, opt_to_owned, opt_eq, strings_eq, strings_contain, str_eq};

verus! {

/// A single build product with concrete inputs and outputs.
/// All paths are relative to the project root.
#[derive(Debug)]
pub struct Product {
    /// Input files (relative paths)
    pub inputs: Vec<String>,
    /// Output files (relative paths)
    pub outputs: Vec<String>,
    /// Which processor handles this product
    pub processor: String,
    /// Unique identifier for this product (its index in the graph)
    pub id: usize,
    /// Every piece of non-input state that contributes to this product's
    /// cache key: processor config, analyzer pieces, tool versions, variant.
    pub cache_key: CacheKey,
    /// Optional variant/profile name (e.g., compiler profile name).
    pub variant: Option<String>,
    /// Output directories cached and restored as a whole.
    pub output_dirs: Vec<String>,
}

/// The abstract value of a product.
pub struct ProductView {
    pub inputs: Seq<Seq<char>>,
    pub outputs: Seq<Seq<char>>,
    pub processor: Seq<char>,
    pub id: nat,
    pub cache_key: Seq<(KeyComponent, Seq<char>)>,
    pub variant: Option<Seq<char>>,
    pub output_dirs: Seq<Seq<char>>,
}

impl View for Product {
    type V = ProductView;

    open spec fn view(&self) -> ProductView {
        ProductView {
            inputs: strs(self.inputs@),
            outputs: strs(self.outputs@),
            processor: self.processor@,
            id: self.id as nat,
            cache_key: self.cache_key@,
            variant: opt_str(self.variant),
            output_dirs: strs(self.output_dirs@),
        }
    }
}

/// The cache key a new product starts with: its config hash, then its
/// variant.
pub open spec fn initial_key(config_hash: Option<Seq<char>>, variant: Option<Seq<char>>) -> Seq<
    (KeyComponent, Seq<char>),
> {
    let base: Seq<(KeyComponent, Seq<char>)> = match config_hash {
        Some(h) => seq![(KeyComponent::Config, h)],
        None => Seq::empty(),
    };
    match variant {
        Some(v) => base.push((KeyComponent::Variant, v)),
        None => base,
    }
}

/// A freshly declared product.
pub open spec fn new_product(
    inputs: Seq<Seq<char>>,
    outputs: Seq<Seq<char>>,
    processor: Seq<char>,
    id: nat,
    config_hash: Option<Seq<char>>,
    variant: Option<Seq<char>>,
) -> ProductView {
    ProductView {
        inputs,
        outputs,
        processor,
        id,
        cache_key: initial_key(config_hash, variant),
        variant,
        output_dirs: Seq::empty(),
    }
}

/// Check 1 of `validate`: one message per product without inputs, among the
/// first `m` products.
pub open spec fn empty_input_msgs(ps: Seq<ProductView>, m: int) -> Seq<Seq<char>>
    decreases m,
{
    if m <= 0 {
        Seq::empty()
    } else if ps[m - 1].inputs.len() == 0 {
        empty_input_msgs(ps, m - 1).push(
            "["@ + ps[m - 1].processor + "] product "@ + display_spec(ps[m - 1], minimal_options())
                + " has no input files"@,
        )
    } else {
        empty_input_msgs(ps, m - 1)
    }
}

/// Check 2 of `validate`: one message per product, among the first `m`,
/// whose id is not its index.
pub open spec fn id_mismatch_msgs(ps: Seq<ProductView>, m: int) -> Seq<Seq<char>>
    decreases m,
{
    if m <= 0 {
        Seq::empty()
    } else if ps[m - 1].id != m - 1 {
        id_mismatch_msgs(ps, m - 1).push(
            "["@ + ps[m - 1].processor + "] product at index "@ + decimal((m - 1) as nat) + " carries id "@
                + decimal(ps[m - 1].id) + " — ids must equal indices after retain/rebuild"@,
        )
    } else {
        id_mismatch_msgs(ps, m - 1)
    }
}

/// Product `j` used input `k` of product `i` (same processor, same path)
/// before that input: an earlier product, or an earlier input of `i`.
pub open spec fn used_before(ps: Seq<ProductView>, i: int, k: int, j: int) -> bool {
    &&& 0 <= j <= i
    &&& ps[j].processor == ps[i].processor
    &&& if j < i {
        ps[j].inputs.contains(ps[i].inputs[k])
    } else {
        ps[i].inputs.take(k).contains(ps[i].inputs[k])
    }
}

/// The first product, from `j` on, that used input `k` of product `i`
/// before it.
pub open spec fn first_user(ps: Seq<ProductView>, i: int, k: int, j: int) -> Option<nat>
    decreases i + 1 - j,
{
    if j < 0 || j > i {
        None
    } else if used_before(ps, i, k, j) {
        Some(j as nat)
    } else {
        first_user(ps, i, k, j + 1)
    }
}

/// The message for input `k` of product `i` repeating an input of `first`.
pub open spec fn dup_msg(p: ProductView, k: int, first: nat) -> Seq<char> {
    "["@ + p.processor + "] input "@ + p.inputs[k] + " appears in both product "@ + decimal(first)
        + " and product "@ + decimal(p.id)
}

/// Check 3 of `validate` for the first `k` inputs of product `i`.
pub open spec fn dup_msgs_in(ps: Seq<ProductView>, i: int, k: int) -> Seq<Seq<char>>
    decreases k,
{
    if k <= 0 {
        Seq::empty()
    } else {
        match first_user(ps, i, k - 1, 0) {
            Some(f) => dup_msgs_in(ps, i, k - 1).push(dup_msg(ps[i], k - 1, f)),
            None => dup_msgs_in(ps, i, k - 1),
        }
    }
}

/// Check 3 of `validate` over the first `m` products.
pub open spec fn dup_msgs(ps: Seq<ProductView>, m: int) -> Seq<Seq<char>>
    decreases m,
{
    if m <= 0 {
        Seq::empty()
    } else {
        dup_msgs(ps, m - 1) + dup_msgs_in(ps, m - 1, ps[m - 1].inputs.len() as int)
    }
}

/// The first product from `j` on that used input `k` of product `i`
/// before it exists exactly when one does, and it is one.
proof fn lemma_first_user_found(ps: Seq<ProductView>, i: int, k: int, j: int)
    requires
        0 <= j,
    ensures
        first_user(ps, i, k, j) is Some <==> exists|f: int| j <= f <= i && #[trigger] used_before(ps, i, k, f),
        first_user(ps, i, k, j) matches Some(f) ==> j <= f <= i && used_before(ps, i, k, f as int),
    decreases i + 1 - j,
{
    if j <= i {
        lemma_first_user_found(ps, i, k, j + 1);
        if !used_before(ps, i, k, j) {
            assert forall|f: int| j <= f <= i && #[trigger] used_before(ps, i, k, f) implies j + 1 <= f by {}
        }
    }
}

/// Check 3 of `validate` reports input `k` of product `i` exactly when a
/// product of the same processor listed the same path before it (an
/// earlier product, or an earlier input of product `i` itself); the
/// message names the processor, the path, that product and product `i`.
/// Products of different processors may share an input.
pub proof fn lemma_duplicate_input_needs_same_processor(ps: Seq<ProductView>, i: int, k: int)
    requires
        0 <= i < ps.len(),
        0 <= k < ps[i].inputs.len(),
    ensures
        ({
            let x = ps[i].inputs[k];
            let earlier = exists|j: int|
                0 <= j <= i && (#[trigger] ps[j]).processor == ps[i].processor && (if j < i {
                    ps[j].inputs.contains(x)
                } else {
                    ps[i].inputs.take(k).contains(x)
                });
            &&& earlier ==> exists|j: int|
                0 <= j <= i && (#[trigger] ps[j]).processor == ps[i].processor && (if j < i {
                    ps[j].inputs.contains(x)
                } else {
                    ps[i].inputs.take(k).contains(x)
                }) && dup_msgs_in(ps, i, k + 1) == dup_msgs_in(ps, i, k).push(
                    "["@ + ps[i].processor + "] input "@ + x + " appears in both product "@ + decimal(j as nat)
                        + " and product "@ + decimal(ps[i].id),
                )
            &&& !earlier ==> dup_msgs_in(ps, i, k + 1) == dup_msgs_in(ps, i, k)
        }),
{
    lemma_first_user_found(ps, i, k, 0);
    let x = ps[i].inputs[k];
    match first_user(ps, i, k, 0) {
        Some(f) => {
            assert(used_before(ps, i, k, f as int));
            assert(ps[f as int].processor == ps[i].processor);
        },
        None => {
            assert forall|j: int|
                0 <= j <= i && (#[trigger] ps[j]).processor == ps[i].processor implies !(if j < i {
                ps[j].inputs.contains(x)
            } else {
                ps[i].inputs.take(k).contains(x)
            }) by {
                assert(!used_before(ps, i, k, j));
            }
        },
    }
}

/// What `validate` reports, check by check, for the enabled checks.
pub open spec fn validate_spec(
    g: GraphView,
    empty_inputs: bool,
    dep_references: bool,
    duplicate_inputs: bool,
    early_cycles: bool,
) -> Seq<Seq<char>> {
    let n = g.products.len() as int;
    (if empty_inputs {
        empty_input_msgs(g.products, n)
    } else {
        Seq::empty()
    }) + (if dep_references {
        id_mismatch_msgs(g.products, n)
    } else {
        Seq::empty()
    }) + (if duplicate_inputs {
        dup_msgs(g.products, n)
    } else {
        Seq::empty()
    }) + (if early_cycles && !has_topological_order(g.dependencies) {
        seq!["Cycle detected in build graph"@]
    } else {
        Seq::empty()
    })
}

/// Some product is handled by processor `p`.
pub open spec fn has_processor(ps: Seq<ProductView>, p: Seq<char>) -> bool {
    exists|i: int| 0 <= i < ps.len() && (#[trigger] ps[i]).processor == p
}

/// A product of processor `p` depends on a product of another processor `q`.
pub open spec fn depends_on(g: GraphView, p: Seq<char>, q: Seq<char>) -> bool {
    p != q && exists|i: int, k: int|
        0 <= i < g.products.len() && 0 <= k < g.dependencies[i].len() && (#[trigger] g.products[i]).processor == p
            && g.products[#[trigger] g.dependencies[i][k] as int].processor == q
}

/// The names of a list of keyed entries.
pub open spec fn entry_keys(v: Seq<(String, Vec<String>)>) -> Seq<Seq<char>> {
    v.map_values(|e: (String, Vec<String>)| e.0@)
}

/// The dependency sets of a list of keyed entries.
pub open spec fn entry_sets(v: Seq<(String, Vec<String>)>) -> Seq<Seq<Seq<char>>> {
    v.map_values(|e: (String, Vec<String>)| strs(e.1@))
}

/// The parts hashed into a product's owner key.
pub open spec fn owner_parts(p: ProductView) -> Seq<Seq<char>> {
    seq![
        p.processor,
        match p.variant {
            Some(v) => v,
            None => Seq::<char>::empty(),
        },
        p.inputs[0],
    ] + p.output_dirs + p.outputs
}

/// How a product is named in messages.
pub open spec fn display_spec(p: ProductView, opts: DisplayOptions) -> Seq<char> {
    if p.outputs.len() == 0 {
        if p.inputs.len() == 0 {
            "?"@
        } else {
            format_path_spec(p.inputs[0], opts.path_format)
        }
    } else {
        let out: Seq<char> = match opts.output {
            OutputDisplay::Omit => Seq::empty(),
            OutputDisplay::Basename => join(formatted(p.outputs, PathFormat::Basename), ", "@),
            OutputDisplay::Path => join(formatted(p.outputs, PathFormat::Path), ", "@),
        };
        let inp: Option<Seq<char>> = match opts.input {
            InputDisplay::Omit => None,
            InputDisplay::Source => if p.inputs.len() == 0 {
                None
            } else {
                Some(format_path_spec(p.inputs[0], opts.path_format))
            },
            InputDisplay::All => if p.inputs.len() == 0 {
                None
            } else {
                Some(join(formatted(p.inputs, opts.path_format), ", "@))
            },
        };
        if out.len() == 0 {
            match inp {
                None => "?"@,
                Some(i) => i,
            }
        } else {
            match inp {
                None => out,
                Some(i) => out + " <- "@ + i,
            }
        }
    }
}

impl Product {
    pub fn new(
        inputs: Vec<String>,
        outputs: Vec<String>,
        processor: &str,
        id: usize,
        config_hash: Option<String>,
    ) -> (r: Product)
        ensures
            r@ == new_product(strs(inputs@), strs(outputs@), processor@, id as nat, opt_str(config_hash), None),
    {
        let r = Product {
            inputs,
            outputs,
            processor: String::from_str(processor),
            id,
            cache_key: CacheKey::from_config_hash(config_hash),
            variant: None,
            output_dirs: Vec::new(),
        };
        proof {
            assert(r@.output_dirs =~= Seq::<Seq<char>>::empty());
        }
        r
    }

    /// Create a new product with a variant/profile name.
    pub fn with_variant(
        inputs: Vec<String>,
        outputs: Vec<String>,
        processor: &str,
        id: usize,
        config_hash: Option<String>,
        variant: &str,
    ) -> (r: Product)
        ensures
            r@ == new_product(strs(inputs@), strs(outputs@), processor@, id as nat, opt_str(config_hash), Some(variant@)),
    {
        let mut cache_key = CacheKey::from_config_hash(config_hash);
        cache_key.push(KeyComponent::Variant, variant);
        let r = Product {
            inputs,
            outputs,
            processor: String::from_str(processor),
            id,
            cache_key,
            variant: Some(String::from_str(variant)),
            output_dirs: Vec::new(),
        };
        proof {
            assert(r@.output_dirs =~= Seq::<Seq<char>>::empty());
        }
        r
    }

    /// The primary (first) input file. Every product has at least one.
    pub fn primary_input(&self) -> (r: &String)
        requires
            self.inputs.len() > 0,
        ensures
            r@ == self@.inputs[0],
    {
        &self.inputs[0]
    }

    /// The primary (first) output file. Every generator product has one.
    pub fn primary_output(&self) -> (r: &String)
        requires
            self.outputs.len() > 0,
        ensures
            r@ == self@.outputs[0],
    {
        &self.outputs[0]
    }

    /// A stable name for "the product that writes these outputs": the hash of
    /// its processor, variant (empty when none), primary input, output
    /// directories and outputs, in that order.
    pub fn owner_key(&self) -> (r: String)
        requires
            self.inputs.len() > 0,
        ensures
            r@ == hash_parts_spec(owner_parts(self@)),
    {
        let mut parts: Vec<String> = Vec::new();
        parts.push(clone_string(&self.processor));
        match &self.variant {
            Some(v) => parts.push(clone_string(v)),
            None => parts.push(String::new()),
        }
        parts.push(clone_string(self.primary_input()));
        let ghost head = parts@;
        let mut i: usize = 0;
        while i < self.output_dirs.len()
            invariant
                0 <= i <= self.output_dirs.len(),
                strs(parts@) == strs(head) + strs(self.output_dirs@).take(i as int),
            decreases self.output_dirs.len() - i,
        {
            let ghost before = parts@;
            parts.push(clone_string(&self.output_dirs[i]));
            proof {
                assert(strs(parts@) =~= strs(before).push(self.output_dirs@[i as int]@));
                assert(strs(self.output_dirs@).take(i + 1) =~= strs(self.output_dirs@).take(i as int).push(
                    self.output_dirs@[i as int]@,
                ));
            }
            i = i + 1;
        }
        let ghost mid = parts@;
        let mut j: usize = 0;
        while j < self.outputs.len()
            invariant
                0 <= j <= self.outputs.len(),
                strs(parts@) == strs(mid) + strs(self.outputs@).take(j as int),
            decreases self.outputs.len() - j,
        {
            let ghost before = parts@;
            parts.push(clone_string(&self.outputs[j]));
            proof {
                assert(strs(parts@) =~= strs(before).push(self.outputs@[j as int]@));
                assert(strs(self.outputs@).take(j + 1) =~= strs(self.outputs@).take(j as int).push(
                    self.outputs@[j as int]@,
                ));
            }
            j = j + 1;
        }
        proof {
            assert(strs(self.output_dirs@).take(self.output_dirs.len() as int) =~= strs(self.output_dirs@));
            assert(strs(self.outputs@).take(self.outputs.len() as int) =~= strs(self.outputs@));
            assert(strs(head) =~= seq![
                self.processor@,
                match self.variant { Some(v) => v@, None => Seq::<char>::empty() },
                self.inputs@[0]@,
            ]);
            assert(strs(parts@) =~= owner_parts(self@));
        }
        hash_parts(&parts)
    }

    /// How the product is named in messages, under the given options.
    /// A product with no outputs (a checker) is named by its first input.
    pub fn display(&self, opts: DisplayOptions) -> (r: String)
        ensures
            r@ == display_spec(self@, opts),
    {
        if self.outputs.len() == 0 {
            if self.inputs.len() == 0 {
                return String::from_str("?");
            }
            return format_path(self.inputs[0].as_str(), opts.path_format);
        }
        let output_part: String = match opts.output {
            OutputDisplay::Omit => String::new(),
            OutputDisplay::Basename => {
                let names = format_paths(&self.outputs, PathFormat::Basename);
                join_strings(&names, ", ")
            },
            OutputDisplay::Path => {
                let names = format_paths(&self.outputs, PathFormat::Path);
                join_strings(&names, ", ")
            },
        };
        let input_part: Option<String> = match opts.input {
            InputDisplay::Omit => None,
            InputDisplay::Source => if self.inputs.len() == 0 {
                None
            } else {
                Some(format_path(self.inputs[0].as_str(), opts.path_format))
            },
            InputDisplay::All => if self.inputs.len() == 0 {
                None
            } else {
                let names = format_paths(&self.inputs, opts.path_format);
                Some(join_strings(&names, ", "))
            },
        };
        if output_part.as_str().is_empty() {
            match input_part {
                None => String::from_str("?"),
                Some(inp) => inp,
            }
        } else {
            match input_part {
                None => output_part,
                Some(inp) => {
                    let mut r = output_part;
                    r.append(" <- ");
                    r.append(inp.as_str());
                    r
                },
            }
        }
    }

    /// Whether this product has output directories to cache.
    pub fn has_output_dirs(&self) -> (r: bool)
        ensures
            r == (self.output_dirs.len() > 0),
    {
        self.output_dirs.len() > 0
    }

    /// Mix an analyzer-supplied piece into the product's cache key.
    pub fn extend_config_hash(&mut self, piece: &str)
        ensures
            final(self)@ == (ProductView {
                cache_key: old(self)@.cache_key.push((KeyComponent::Analyzer, piece@)),
                ..old(self)@
            }),
    {
        self.cache_key.push(KeyComponent::Analyzer, piece);
    }

    /// The content-addressed descriptor key for this product.
    pub fn descriptor_key(&self, input_checksum: &str) -> (r: String)
        ensures
            r@ == crate::cache_key::descriptor_key_spec(
                self@.processor,
                input_checksum@,
                self@.cache_key,
            ),
    {
        self.cache_key.descriptor_key(self.processor.as_str(), input_checksum)
    }
}


/// Dedup entry for a product without outputs: (processor, primary input,
/// variant) names the product `id`.
#[derive(Debug)]
struct CheckerKey {
    processor: String,
    primary: String,
    variant: Option<String>,
    id: usize,
}

pub struct CheckerKeyView {
    pub processor: Seq<char>,
    pub primary: Seq<char>,
    pub variant: Option<Seq<char>>,
    pub id: nat,
}

impl View for CheckerKey {
    type V = CheckerKeyView;

    closed spec fn view(&self) -> CheckerKeyView {
        CheckerKeyView {
            processor: self.processor@,
            primary: self.primary@,
            variant: opt_str(self.variant),
            id: self.id as nat,
        }
    }
}

/// The abstract value of a build graph: its products in id order, the
/// dedup index of products without outputs, and for each product the ids of
/// the products it depends on.
pub struct GraphView {
    pub products: Seq<ProductView>,
    pub keys: Seq<CheckerKeyView>,
    pub dependencies: Seq<Seq<usize>>,
}

/// Build graph with dependency resolution. The owner and the consumers of
/// a path are found by reading the products' own output and input lists;
/// the graph keeps no index keyed by path.
pub struct BuildGraph {
    products: Vec<Product>,
    checker_keys: Vec<CheckerKey>,
    /// product id -> ids of the products that depend on it
    dependents: Vec<Vec<usize>>,
    /// product id -> ids of the products it depends on
    dependencies: Vec<Vec<usize>>,
}

/// One dependency row per product, each edge naming another product.
pub open spec fn edges_ok(g: GraphView) -> bool {
    &&& g.dependencies.len() == g.products.len()
    &&& forall|c: int, k: int|
        0 <= c < g.dependencies.len() && 0 <= k < g.dependencies[c].len() ==> (
        #[trigger] g.dependencies[c][k]) < g.products.len() && g.dependencies[c][k] != c
}

/// The index of the product that lists `path` among its outputs, if any.
pub open spec fn owner_of(ps: Seq<ProductView>, path: Seq<char>) -> Option<nat> {
    if exists|i: int| 0 <= i < ps.len() && #[trigger] ps[i].outputs.contains(path) {
        Some((choose|i: int| 0 <= i < ps.len() && #[trigger] ps[i].outputs.contains(path)) as nat)
    } else {
        None
    }
}

/// No path is an output of two different products.
pub open spec fn unique_owners(ps: Seq<ProductView>) -> bool {
    forall|i: int, j: int, x: Seq<char>|
        0 <= i < ps.len() && 0 <= j < ps.len() && #[trigger] ps[i].outputs.contains(x)
            && #[trigger] ps[j].outputs.contains(x) ==> i == j
}

pub open spec fn key_matches(
    k: CheckerKeyView,
    processor: Seq<char>,
    primary: Seq<char>,
    variant: Option<Seq<char>>,
) -> bool {
    k.processor == processor && k.primary == primary && k.variant == variant
}

/// The product registered under a dedup key, if any.
pub open spec fn key_lookup(
    keys: Seq<CheckerKeyView>,
    processor: Seq<char>,
    primary: Seq<char>,
    variant: Option<Seq<char>>,
) -> Option<nat> {
    if exists|i: int| 0 <= i < keys.len() && key_matches(#[trigger] keys[i], processor, primary, variant) {
        Some(
            keys[choose|i: int|
                0 <= i < keys.len() && key_matches(#[trigger] keys[i], processor, primary, variant)].id,
        )
    } else {
        None
    }
}

pub open spec fn keys_unique(keys: Seq<CheckerKeyView>) -> bool {
    forall|i: int, j: int|
        #![trigger keys[i], keys[j]]
        0 <= i < keys.len() && 0 <= j < keys.len() && key_matches(
            keys[i],
            keys[j].processor,
            keys[j].primary,
            keys[j].variant,
        ) ==> i == j
}

/// Register `k`, replacing an entry with the same key.
pub open spec fn key_insert(keys: Seq<CheckerKeyView>, k: CheckerKeyView) -> Seq<CheckerKeyView> {
    if exists|i: int| 0 <= i < keys.len() && key_matches(#[trigger] keys[i], k.processor, k.primary, k.variant) {
        keys.update(
            choose|i: int| 0 <= i < keys.len() && key_matches(#[trigger] keys[i], k.processor, k.primary, k.variant),
            k,
        )
    } else {
        keys.push(k)
    }
}

/// The invariant every graph keeps.
pub open spec fn graph_wf(g: GraphView) -> bool {
    &&& g.dependencies.len() == g.products.len()
    &&& forall|i: int| 0 <= i < g.products.len() ==> (#[trigger] g.products[i]).id == i
    &&& unique_owners(g.products)
    &&& forall|c: int, k: int|
        0 <= c < g.dependencies.len() && 0 <= k < g.dependencies[c].len() ==> (
        #[trigger] g.dependencies[c][k]) < g.products.len() && g.dependencies[c][k] != c
    &&& keys_unique(g.keys)
    &&& forall|i: int| 0 <= i < g.keys.len() ==> (#[trigger] g.keys[i]).id < g.products.len()
    &&& forall|i: int| 0 <= i < g.keys.len() ==> g.products[(#[trigger] g.keys[i]).id as int].inputs.len() > 0
}

pub proof fn lemma_first_owned_none(ps: Seq<ProductView>, outs: Seq<Seq<char>>, k: int, j: int)
    requires
        0 <= k <= j < outs.len(),
        first_owned(ps, outs, k) is None,
    ensures
        owner_of(ps, outs[j]) is None,
    decreases j - k,
{
    if k < j {
        lemma_first_owned_none(ps, outs, k + 1, j);
    }
}

/// The number of occurrences of `x` in `s`.
pub open spec fn count_of(s: Seq<usize>, x: usize) -> nat
    decreases s.len(),
{
    if s.len() == 0 {
        0
    } else {
        count_of(s.drop_last(), x) + if s.last() == x { 1nat } else { 0nat }
    }
}

pub proof fn lemma_count_push(s: Seq<usize>, y: usize, x: usize)
    ensures
        count_of(s.push(y), x) == count_of(s, x) + if y == x { 1nat } else { 0nat },
{
    assert(s.push(y).drop_last() =~= s);
}

pub proof fn lemma_count_absent(s: Seq<usize>, x: usize)
    requires
        forall|k: int| 0 <= k < s.len() ==> s[k] != x,
    ensures
        count_of(s, x) == 0,
    decreases s.len(),
{
    if s.len() > 0 {
        lemma_count_absent(s.drop_last(), x);
    }
}

pub proof fn lemma_count_present(s: Seq<usize>, x: usize, k: int)
    requires
        0 <= k < s.len(),
        s[k] == x,
    ensures
        count_of(s, x) > 0,
    decreases s.len(),
{
    if k < s.len() - 1 {
        lemma_count_present(s.drop_last(), x, k);
    }
}

pub proof fn lemma_count_positive(s: Seq<usize>, x: usize) -> (k: int)
    requires
        count_of(s, x) > 0,
    ensures
        0 <= k < s.len(),
        s[k] == x,
    decreases s.len(),
{
    if s.last() == x {
        s.len() - 1
    } else {
        lemma_count_positive(s.drop_last(), x)
    }
}

/// Add `p` as the next product (its id becomes the next index).
pub open spec fn register(g: GraphView, p: ProductView) -> GraphView {
    let id = g.products.len();
    GraphView {
        products: g.products.push(ProductView { id, ..p }),
        keys: if p.outputs.len() == 0 && p.inputs.len() > 0 {
            key_insert(
                g.keys,
                CheckerKeyView { processor: p.processor, primary: p.inputs[0], variant: p.variant, id },
            )
        } else {
            g.keys
        },
        dependencies: g.dependencies.push(Seq::empty()),
    }
}

/// A re-declaration may keep a product's inputs or grow them, never drop
/// one.
pub open spec fn accepts(old_inputs: Seq<Seq<char>>, new_inputs: Seq<Seq<char>>) -> bool {
    old_inputs == new_inputs || forall|x: Seq<char>| #[trigger] old_inputs.contains(x) ==> new_inputs.contains(x)
}

/// `g` with product `e`'s inputs replaced.
pub open spec fn set_inputs(g: GraphView, e: int, inputs: Seq<Seq<char>>) -> GraphView {
    GraphView {
        products: g.products.update(e, ProductView { inputs, ..g.products[e] }),
        ..g
    }
}

/// The first output (from index `k` on) already owned by some product,
/// with its owner.
pub open spec fn first_owned(ps: Seq<ProductView>, outs: Seq<Seq<char>>, k: int) -> Option<(nat, nat)>
    decreases outs.len() - k,
{
    if k < 0 || k >= outs.len() {
        None
    } else {
        match owner_of(ps, outs[k]) {
            Some(e) => Some((k as nat, e)),
            None => first_owned(ps, outs, k + 1),
        }
    }
}

/// What declaring a product does to a graph.
pub enum AddOutcome {
    /// The declaration names an existing product, whose inputs become the
    /// declared ones.
    Dedup(nat),
    /// A product without outputs re-declared with inputs that drop one.
    InputConflict(nat),
    /// Output `k` is already produced by product `e` (and this is not an
    /// accepted re-declaration of it).
    OutputConflict(nat, nat),
    /// A new product.
    Fresh,
}

pub open spec fn add_outcome(
    g: GraphView,
    inputs: Seq<Seq<char>>,
    outputs: Seq<Seq<char>>,
    processor: Seq<char>,
    variant: Option<Seq<char>>,
) -> AddOutcome {
    if outputs.len() == 0 && inputs.len() > 0 && key_lookup(g.keys, processor, inputs[0], variant) is Some {
        let e = key_lookup(g.keys, processor, inputs[0], variant)->0;
        if accepts(g.products[e as int].inputs, inputs) {
            AddOutcome::Dedup(e)
        } else {
            AddOutcome::InputConflict(e)
        }
    } else {
        output_outcome(g, inputs, outputs, processor)
    }
}

/// The outcome decided by the first already-owned output, if any.
pub open spec fn output_outcome(
    g: GraphView,
    inputs: Seq<Seq<char>>,
    outputs: Seq<Seq<char>>,
    processor: Seq<char>,
) -> AddOutcome {
    match first_owned(g.products, outputs, 0) {
        Some((k, e)) => {
            let ex = g.products[e as int];
            if ex.processor == processor && ex.outputs == outputs && accepts(ex.inputs, inputs) {
                AddOutcome::Dedup(e)
            } else {
                AddOutcome::OutputConflict(k, e)
            }
        },
        None => AddOutcome::Fresh,
    }
}

pub open spec fn output_conflict_msg(path: Seq<char>, existing: Seq<char>, processor: Seq<char>) -> Seq<char> {
    "Output conflict: "@ + path + " is produced by both ["@ + existing + "] and ["@ + processor + "]"@
}

pub open spec fn input_conflict_msg(
    processor: Seq<char>,
    primary: Seq<char>,
    existing: Seq<Seq<char>>,
    attempted: Seq<Seq<char>>,
) -> Seq<char> {
    "Input conflict: ["@ + processor + "] declared product for "@ + primary
        + " twice with incompatible inputs ("@ + crate::text::debug_list(existing) + " then "@
        + crate::text::debug_list(attempted)
        + "). A re-declaration may only add inputs, not change them."@
}

/// The graph and result after declaring a product, as `add_outcome` decides.
pub open spec fn add_post(
    old_g: GraphView,
    new_g: GraphView,
    r: Result<usize, RsconstructError>,
    inputs: Seq<Seq<char>>,
    outputs: Seq<Seq<char>>,
    processor: Seq<char>,
    config_hash: Option<Seq<char>>,
    variant: Option<Seq<char>>,
) -> bool {
    match add_outcome(old_g, inputs, outputs, processor, variant) {
        AddOutcome::Dedup(e) => r == Ok::<usize, RsconstructError>(e as usize) && new_g == set_inputs(
            old_g,
            e as int,
            inputs,
        ),
        AddOutcome::InputConflict(e) => {
            &&& r is Err
            &&& r->Err_0.exit_code == RsconstructExitCode::GraphError
            &&& r->Err_0.message@ == input_conflict_msg(
                processor,
                old_g.products[e as int].inputs[0],
                old_g.products[e as int].inputs,
                inputs,
            )
            &&& new_g == old_g
        },
        AddOutcome::OutputConflict(k, e) => {
            &&& r is Err
            &&& r->Err_0.exit_code == RsconstructExitCode::GraphError
            &&& r->Err_0.message@ == output_conflict_msg(
                outputs[k as int],
                old_g.products[e as int].processor,
                processor,
            )
            &&& new_g == old_g
        },
        AddOutcome::Fresh => r == Ok::<usize, RsconstructError>(old_g.products.len() as usize)
            && new_g == register(
            old_g,
            new_product(inputs, outputs, processor, old_g.products.len(), config_hash, variant),
        ),
    }
}

/// With each output owned once, the owner of an output is the product that
/// lists it.
proof fn lemma_owner_is_lister(ps: Seq<ProductView>, i: int, x: Seq<char>)
    requires
        unique_owners(ps),
        0 <= i < ps.len(),
        ps[i].outputs.contains(x),
    ensures
        owner_of(ps, x) == Some(i as nat),
{
    let j = choose|j: int| 0 <= j < ps.len() && #[trigger] ps[j].outputs.contains(x);
    assert(ps[j].outputs.contains(x));
}

/// Two product lists with the same outputs, each output owned once, have
/// the same owners and the same first owned output.
proof fn lemma_first_owned_same(ps0: Seq<ProductView>, ps1: Seq<ProductView>, outs: Seq<Seq<char>>, k: int)
    requires
        unique_owners(ps0),
        unique_owners(ps1),
        ps0.len() == ps1.len(),
        forall|i: int| 0 <= i < ps0.len() ==> #[trigger] ps0[i].outputs == ps1[i].outputs,
    ensures
        first_owned(ps0, outs, k) == first_owned(ps1, outs, k),
    decreases outs.len() - k,
{
    if 0 <= k < outs.len() {
        let x = outs[k];
        if owner_of(ps0, x) is Some {
            let i = choose|i: int| 0 <= i < ps0.len() && #[trigger] ps0[i].outputs.contains(x);
            assert(ps1[i].outputs.contains(x));
            lemma_owner_is_lister(ps0, i, x);
            lemma_owner_is_lister(ps1, i, x);
        } else if owner_of(ps1, x) is Some {
            let i = choose|i: int| 0 <= i < ps1.len() && #[trigger] ps1[i].outputs.contains(x);
            assert(ps0[i].outputs.contains(x));
        }
        lemma_first_owned_same(ps0, ps1, outs, k + 1);
    }
}

/// The first owned output is an output, owned by the product given.
proof fn lemma_first_owned_at(ps: Seq<ProductView>, outs: Seq<Seq<char>>, k: int)
    ensures
        first_owned(ps, outs, k) matches Some((a, b)) ==> a < outs.len() && owner_of(ps, outs[a as int]) == Some(b),
    decreases outs.len() - k,
{
    if 0 <= k < outs.len() {
        lemma_first_owned_at(ps, outs, k + 1);
    }
}

/// The key lookup finds the one key that matches.
proof fn lemma_key_lookup_at(keys: Seq<CheckerKeyView>, i: int, processor: Seq<char>, primary: Seq<char>, variant: Option<Seq<char>>)
    requires
        keys_unique(keys),
        0 <= i < keys.len(),
        key_matches(keys[i], processor, primary, variant),
    ensures
        key_lookup(keys, processor, primary, variant) == Some(keys[i].id),
{
    let j = choose|j: int| 0 <= j < keys.len() && key_matches(#[trigger] keys[j], processor, primary, variant);
    assert(key_matches(keys[j], keys[i].processor, keys[i].primary, keys[i].variant));
}

/// A declaration that fails leaves the graph as it was.
pub proof fn lemma_failed_declaration_changes_nothing(
    g0: GraphView,
    g1: GraphView,
    r: Result<usize, RsconstructError>,
    inputs: Seq<Seq<char>>,
    outputs: Seq<Seq<char>>,
    processor: Seq<char>,
    config_hash: Option<Seq<char>>,
    variant: Option<Seq<char>>,
)
    requires
        add_post(g0, g1, r, inputs, outputs, processor, config_hash, variant),
        r is Err,
    ensures
        g1 == g0,
{
}

/// A declaration that succeeds returns an existing product's id (the graph
/// keeps its size) or the next id (the graph grows by that product), and
/// making the same declaration again returns the same id and changes
/// nothing, unless the product has neither inputs nor outputs.
pub proof fn lemma_redeclaration_is_stable(
    g0: GraphView,
    g1: GraphView,
    g2: GraphView,
    r1: Result<usize, RsconstructError>,
    r2: Result<usize, RsconstructError>,
    inputs: Seq<Seq<char>>,
    outputs: Seq<Seq<char>>,
    processor: Seq<char>,
    config_hash: Option<Seq<char>>,
    variant: Option<Seq<char>>,
)
    requires
        graph_wf(g0),
        graph_wf(g1),
        g0.products.len() < usize::MAX,
        add_post(g0, g1, r1, inputs, outputs, processor, config_hash, variant),
        r1 is Ok,
        add_post(g1, g2, r2, inputs, outputs, processor, config_hash, variant),
        inputs.len() > 0 || outputs.len() > 0,
    ensures
        r1->Ok_0 <= g0.products.len(),
        r1->Ok_0 < g0.products.len() ==> g1.products.len() == g0.products.len(),
        r1->Ok_0 == g0.products.len() ==> g1.products.len() == g0.products.len() + 1,
        r2 == r1,
        g2 == g1,
{
    let n = g0.products.len();
    match add_outcome(g0, inputs, outputs, processor, variant) {
        AddOutcome::Dedup(e) => {
            let checker = outputs.len() == 0 && inputs.len() > 0 && key_lookup(g0.keys, processor, inputs[0], variant) is Some;
            if checker {
                let i = choose|i: int| 0 <= i < g0.keys.len() && key_matches(#[trigger] g0.keys[i], processor, inputs[0], variant);
                lemma_key_lookup_at(g0.keys, i, processor, inputs[0], variant);
                assert(g0.keys[i].id < n);
            } else {
                lemma_first_owned_at(g0.products, outputs, 0);
                let pair = first_owned(g0.products, outputs, 0)->0;
                lemma_owner_bound(g0.products, outputs[pair.0 as int]);
                assert(e < n);
                assert forall|i: int| 0 <= i < g0.products.len() implies #[trigger] g0.products[i].outputs
                    == g1.products[i].outputs by {
                    if i == e as int {
                        assert(g1.products[i] == ProductView { inputs, ..g0.products[i] });
                    }
                }
                lemma_first_owned_same(g0.products, g1.products, outputs, 0);
            }
            assert(e < n);
            assert(g1 == set_inputs(g0, e as int, inputs));
            assert(g1.products.len() == g0.products.len());
            assert(g1.products[e as int].inputs == inputs);
            assert(accepts(g1.products[e as int].inputs, inputs));
            assert(g1.products.update(e as int, ProductView { inputs, ..g1.products[e as int] }) =~= g1.products);
        },
        AddOutcome::Fresh => {
            let p = ProductView { id: n, ..new_product(inputs, outputs, processor, n, config_hash, variant) };
            assert(g1.products[n as int] == p);
            if outputs.len() == 0 && inputs.len() > 0 {
                let k = CheckerKeyView { processor, primary: inputs[0], variant, id: n };
                assert(g1.keys == g0.keys.push(k));
                assert(key_matches(g1.keys[g0.keys.len() as int], processor, inputs[0], variant));
                lemma_key_lookup_at(g1.keys, g0.keys.len() as int, processor, inputs[0], variant);
            } else {
                assert(g1.products[n as int].outputs.contains(outputs[0]));
                lemma_owner_is_lister(g1.products, n as int, outputs[0]);
                assert(first_owned(g1.products, outputs, 0) == Some((0nat, n)));
            }
            assert(g1.products.update(n as int, ProductView { inputs, ..g1.products[n as int] }) =~= g1.products);
        },
        _ => {},
    }
}

/// A declaration that succeeds leaves every one of its outputs owned by the
/// product whose id it returns.
#[verifier::spinoff_prover]
pub proof fn lemma_declared_outputs_owned(
    g0: GraphView,
    g1: GraphView,
    r: Result<usize, RsconstructError>,
    inputs: Seq<Seq<char>>,
    outputs: Seq<Seq<char>>,
    processor: Seq<char>,
    config_hash: Option<Seq<char>>,
    variant: Option<Seq<char>>,
)
    requires
        graph_wf(g0),
        graph_wf(g1),
        add_post(g0, g1, r, inputs, outputs, processor, config_hash, variant),
        g0.products.len() < usize::MAX,
        r is Ok,
    ensures
        forall|o: Seq<char>| #[trigger] outputs.contains(o) ==> owner_of(g1.products, o) == Some(r->Ok_0 as nat),
{
    let n = g0.products.len();
    match add_outcome(g0, inputs, outputs, processor, variant) {
        AddOutcome::Dedup(e) => {
            if !(outputs.len() == 0 && inputs.len() > 0 && key_lookup(g0.keys, processor, inputs[0], variant) is Some) {
                lemma_first_owned_at(g0.products, outputs, 0);
                let pair = first_owned(g0.products, outputs, 0)->0;
                lemma_owner_bound(g0.products, outputs[pair.0 as int]);
                assert(e < n);
                assert(g1.products[e as int].outputs == outputs);
                assert forall|o: Seq<char>| #[trigger] outputs.contains(o) implies owner_of(g1.products, o) == Some(
                    e,
                ) by {
                    lemma_owner_is_lister(g1.products, e as int, o);
                }
            }
        },
        AddOutcome::Fresh => {
            assert(g1.products[n as int].outputs == outputs);
            assert forall|o: Seq<char>| #[trigger] outputs.contains(o) implies owner_of(g1.products, o) == Some(n) by {
                lemma_owner_is_lister(g1.products, n as int, o);
            }
        },
        _ => {},
    }
}

/// The producers of the first `k` inputs of product `c`, in input order:
/// for each input owned by another product, that product's id.
pub open spec fn deps_prefix(ps: Seq<ProductView>, c: int, k: int) -> Seq<usize>
    decreases k,
{
    if k <= 0 {
        Seq::empty()
    } else {
        let prev = deps_prefix(ps, c, k - 1);
        match owner_of(ps, ps[c].inputs[k - 1]) {
            Some(p) => if p != c {
                prev.push(p as usize)
            } else {
                prev
            },
            None => prev,
        }
    }
}

/// The products that produce an input of product `c`, one entry per such
/// input, in input order.
pub open spec fn deps_of(ps: Seq<ProductView>, c: int) -> Seq<usize> {
    deps_prefix(ps, c, ps[c].inputs.len() as int)
}

/// `g` after linking every product to the producers of its inputs.
pub open spec fn resolved(g: GraphView) -> GraphView {
    GraphView {
        dependencies: Seq::new(
            g.products.len(),
            |c: int| g.dependencies[c] + deps_of(g.products, c),
        ),
        ..g
    }
}

pub proof fn lemma_owner_bound(ps: Seq<ProductView>, path: Seq<char>)
    ensures
        owner_of(ps, path) matches Some(p) ==> p < ps.len() && ps[p as int].outputs.contains(path),
{
}

/// `g` with product `id`'s output directories replaced.
pub open spec fn set_output_dirs(g: GraphView, id: int, dirs: Seq<Seq<char>>) -> GraphView {
    GraphView {
        products: g.products.update(id, ProductView { output_dirs: dirs, ..g.products[id] }),
        ..g
    }
}

/// The ids of the products that list `path` among their inputs, ascending.
pub open spec fn consumers_of(ps: Seq<ProductView>, path: Seq<char>, m: int) -> Seq<usize>
    decreases m,
{
    if m <= 0 {
        Seq::empty()
    } else if ps[m - 1].inputs.contains(path) {
        consumers_of(ps, path, m - 1).push((m - 1) as usize)
    } else {
        consumers_of(ps, path, m - 1)
    }
}

/// The tool-version hash mapped to a processor name (first entry wins).
pub open spec fn tool_hash_for(hashes: Seq<(Seq<char>, Seq<char>)>, processor: Seq<char>) -> Option<Seq<char>>
    decreases hashes.len(),
{
    if hashes.len() == 0 {
        None
    } else if hashes[0].0 == processor {
        Some(hashes[0].1)
    } else {
        tool_hash_for(hashes.drop_first(), processor)
    }
}

/// A product with its tool-version hash mixed into its cache key.
pub open spec fn with_tool_hash(p: ProductView, hashes: Seq<(Seq<char>, Seq<char>)>) -> ProductView {
    match tool_hash_for(hashes, p.processor) {
        Some(h) => ProductView { cache_key: p.cache_key.push((KeyComponent::ToolVersion, h)), ..p },
        None => p,
    }
}

pub open spec fn pairs_view(v: Seq<(String, String)>) -> Seq<(Seq<char>, Seq<char>)> {
    v.map_values(|p: (String, String)| (p.0@, p.1@))
}

/// The products of `ps` whose flag in `keep` is set, in order.
pub open spec fn kept(ps: Seq<ProductView>, keep: Seq<bool>, m: int) -> Seq<ProductView>
    decreases m,
{
    if m <= 0 {
        Seq::empty()
    } else if keep[m - 1] {
        kept(ps, keep, m - 1).push(ps[m - 1])
    } else {
        kept(ps, keep, m - 1)
    }
}

/// The empty graph.
pub open spec fn empty_graph() -> GraphView {
    GraphView { products: Seq::empty(), keys: Seq::empty(), dependencies: Seq::empty() }
}

/// The graph obtained by registering the first `m` products of `ps`, in
/// order, into an empty graph.
pub open spec fn registered_all(ps: Seq<ProductView>, m: int) -> GraphView
    decreases m,
{
    if m <= 0 {
        empty_graph()
    } else {
        register(registered_all(ps, m - 1), ps[m - 1])
    }
}

/// The graph rebuilt from the products flagged in `keep`: ids reassigned
/// in order, every index rebuilt, and dependencies linked afresh.
pub open spec fn rebuilt(ps: Seq<ProductView>, keep: Seq<bool>) -> GraphView {
    let k = kept(ps, keep, ps.len() as int);
    resolved(registered_all(k, k.len() as int))
}

#[verifier::spinoff_prover]
pub proof fn lemma_kept_len(ps: Seq<ProductView>, keep: Seq<bool>, m: int)
    requires
        0 <= m <= ps.len(),
    ensures
        kept(ps, keep, m).len() <= m,
        forall|i: int|
            #![trigger kept(ps, keep, m)[i]]
            0 <= i < kept(ps, keep, m).len() ==> exists|j: int| 0 <= j < m && kept(ps, keep, m)[i] == #[trigger] ps[j],
    decreases m,
{
    if m > 0 {
        lemma_kept_len(ps, keep, m - 1);
        let prev = kept(ps, keep, m - 1);
        assert forall|i: int|
            #![trigger kept(ps, keep, m)[i]]
            0 <= i < kept(ps, keep, m).len() implies exists|j: int| 0 <= j < m && kept(ps, keep, m)[i] == #[trigger] ps[j] by {
            if i < prev.len() {
                assert(kept(ps, keep, m)[i] == prev[i]);
                let j = choose|j: int| 0 <= j < m - 1 && prev[i] == #[trigger] ps[j];
                assert(kept(ps, keep, m)[i] == ps[j]);
            } else {
                assert(kept(ps, keep, m)[i] == ps[m - 1]);
            }
        }
    }
}

/// Kept products appear in the same relative order as in `ps`: the i-th
/// kept product comes from a position after the (i-1)-th one's.
pub proof fn lemma_kept_positions(ps: Seq<ProductView>, keep: Seq<bool>, m: int) -> (pos: Seq<int>)
    requires
        0 <= m <= ps.len(),
    ensures
        pos.len() == kept(ps, keep, m).len(),
        forall|i: int| 0 <= i < pos.len() ==> 0 <= #[trigger] pos[i] < m && kept(ps, keep, m)[i] == ps[pos[i]],
        forall|i: int, j: int| 0 <= i < j < pos.len() ==> pos[i] < pos[j],
    decreases m,
{
    if m == 0 {
        Seq::empty()
    } else {
        let prev = lemma_kept_positions(ps, keep, m - 1);
        if keep[m - 1] {
            prev.push(m - 1)
        } else {
            prev
        }
    }
}

/// A graph built by registering products in order holds exactly those
/// products, renumbered, with no dependencies yet.
pub proof fn lemma_registered_products(ps: Seq<ProductView>, m: int)
    requires
        0 <= m <= ps.len(),
    ensures
        registered_all(ps, m).products.len() == m,
        forall|i: int| 0 <= i < m ==> #[trigger] registered_all(ps, m).products[i] == (ProductView { id: i as nat, ..ps[i] }),
        registered_all(ps, m).dependencies.len() == m,
    decreases m,
{
    if m > 0 {
        lemma_registered_products(ps, m - 1);
    }
}

/// The kept products are exactly those flagged, in their order.
proof fn lemma_kept_exactly(ps: Seq<ProductView>, keep: Seq<bool>, m: int) -> (pos: Seq<int>)
    requires
        0 <= m <= ps.len(),
        keep.len() == ps.len(),
    ensures
        pos.len() == kept(ps, keep, m).len(),
        forall|i: int| 0 <= i < pos.len() ==> 0 <= #[trigger] pos[i] < m && keep[pos[i]] && kept(ps, keep, m)[i] == ps[pos[i]],
        forall|i: int, j: int| 0 <= i < j < pos.len() ==> pos[i] < pos[j],
        forall|j: int| 0 <= j < m && #[trigger] keep[j] ==> pos.contains(j),
    decreases m,
{
    if m == 0 {
        Seq::empty()
    } else {
        let prev = lemma_kept_exactly(ps, keep, m - 1);
        if keep[m - 1] {
            let pos = prev.push(m - 1);
            assert forall|j: int| 0 <= j < m && #[trigger] keep[j] implies pos.contains(j) by {
                if j < m - 1 {
                    let i = choose|i: int| 0 <= i < prev.len() && prev[i] == j;
                    assert(pos[i] == j);
                } else {
                    assert(pos[pos.len() - 1] == j);
                }
            }
            pos
        } else {
            prev
        }
    }
}

/// What keeping some products does: the graph holds the flagged products,
/// each with every field but its id unchanged, in their order, each with
/// its new position as its id; every flagged product survives; the
/// dependencies are linked afresh among the survivors.
pub proof fn lemma_rebuilt_survivors(ps: Seq<ProductView>, keep: Seq<bool>) -> (pos: Seq<int>)
    requires
        keep.len() == ps.len(),
    ensures
        rebuilt(ps, keep).products.len() == pos.len(),
        forall|i: int|
            0 <= i < pos.len() ==> 0 <= #[trigger] pos[i] < ps.len() && keep[pos[i]] && rebuilt(ps, keep).products[i] == (ProductView {
                id: i as nat,
                ..ps[pos[i]]
            }),
        forall|i: int, j: int| 0 <= i < j < pos.len() ==> pos[i] < pos[j],
        forall|j: int| 0 <= j < ps.len() && #[trigger] keep[j] ==> pos.contains(j),
        rebuilt(ps, keep) == resolved(registered_all(kept(ps, keep, ps.len() as int), pos.len() as int)),
{
    let pos = lemma_kept_exactly(ps, keep, ps.len() as int);
    let k = kept(ps, keep, ps.len() as int);
    lemma_registered_products(k, k.len() as int);
    assert forall|i: int|
        0 <= i < pos.len() implies 0 <= #[trigger] pos[i] < ps.len() && keep[pos[i]] && rebuilt(ps, keep).products[i] == (ProductView {
            id: i as nat,
            ..ps[pos[i]]
        }) by {
        assert(registered_all(k, k.len() as int).products[i] == (ProductView { id: i as nat, ..k[i] }));
    }
    pos
}

/// Registering a prefix only depends on the prefix.
pub proof fn lemma_registered_prefix(a: Seq<ProductView>, b: Seq<ProductView>, m: int)
    requires
        0 <= m <= a.len(),
        m <= b.len(),
        forall|i: int| 0 <= i < m ==> a[i] == b[i],
    ensures
        registered_all(a, m) == registered_all(b, m),
    decreases m,
{
    if m > 0 {
        lemma_registered_prefix(a, b, m - 1);
    }
}

/// Whether some input of product `i` matches some pattern.
pub open spec fn matches_target(ps: Seq<ProductView>, patterns: Seq<Seq<char>>, i: int) -> bool {
    exists|k: int, j: int|
        0 <= k < ps[i].inputs.len() && 0 <= j < patterns.len() && glob_matches(
            #[trigger] patterns[j],
            #[trigger] ps[i].inputs[k],
        )
}

/// `path` walks from product `path[0]` to `path.last()` through
/// dependency edges.
pub open spec fn is_dep_path(deps: Seq<Seq<usize>>, path: Seq<int>) -> bool {
    &&& path.len() > 0
    &&& forall|t: int| 0 <= t < path.len() ==> 0 <= #[trigger] path[t] < deps.len()
    &&& forall|t: int| 0 < t < path.len() ==> deps[path[t - 1]].contains(#[trigger] path[t] as usize)
}

/// Product `i` is a target or an upstream producer of one: some chain of
/// dependency edges leads from a matching product to it.
pub open spec fn upstream_of_targets(g: GraphView, patterns: Seq<Seq<char>>, i: int) -> bool {
    exists|path: Seq<int>|
        is_dep_path(g.dependencies, path) && matches_target(g.products, patterns, path[0])
            && path.last() == i
}

/// The position of the first pattern that fails to compile, if any.
pub open spec fn first_bad_pattern(patterns: Seq<Seq<char>>, j: int) -> Option<nat>
    decreases patterns.len() - j,
{
    if j < 0 || j >= patterns.len() {
        None
    } else if glob_parse_error(patterns[j]) is Some {
        Some(j as nat)
    } else {
        first_bad_pattern(patterns, j + 1)
    }
}

pub proof fn lemma_first_bad_none(patterns: Seq<Seq<char>>, j: int, k: int)
    requires
        0 <= j <= k < patterns.len(),
        first_bad_pattern(patterns, j) is None,
    ensures
        glob_parse_error(patterns[k]) is None,
    decreases k - j,
{
    if j < k {
        lemma_first_bad_none(patterns, j + 1, k);
    }
}

/// Everything reachable from a kept product along dependency edges is kept,
/// when the kept set contains the start and is closed under dependencies.
pub proof fn lemma_closed_contains_path(deps: Seq<Seq<usize>>, keep: Seq<bool>, path: Seq<int>, t: int)
    requires
        is_dep_path(deps, path),
        keep.len() == deps.len(),
        deps.len() <= usize::MAX,
        keep[path[0]],
        0 <= t < path.len(),
        forall|u: int, k: int|
            0 <= u < deps.len() && keep[u] && 0 <= k < deps[u].len() ==> keep[#[trigger] deps[u][k] as int],
    ensures
        keep[path[t]],
    decreases t,
{
    if t > 0 {
        lemma_closed_contains_path(deps, keep, path, t - 1);
        assert(deps[path[t - 1]].contains(path[t] as usize));
        let k = choose|k: int| 0 <= k < deps[path[t - 1]].len() && #[trigger] deps[path[t - 1]][k] == path[t] as usize;
        assert(keep[deps[path[t - 1]][k] as int]);
        assert((path[t] as usize) as int == path[t]);
    }
}

fn output_conflict_message(path: &str, existing: &str, processor: &str) -> (r: String)
    ensures
        r@ == output_conflict_msg(path@, existing@, processor@),
{
    let mut m: String = String::from_str("Output conflict: ");
    m.append(path);
    m.append(" is produced by both [");
    m.append(existing);
    m.append("] and [");
    m.append(processor);
    m.append("]");
    m
}

fn input_conflict_message(
    processor: &str,
    primary: &str,
    existing: &Vec<String>,
    attempted: &Vec<String>,
) -> (r: String)
    ensures
        r@ == input_conflict_msg(processor@, primary@, strs(existing@), strs(attempted@)),
{
    let mut m: String = String::from_str("Input conflict: [");
    m.append(processor);
    m.append("] declared product for ");
    m.append(primary);
    m.append(" twice with incompatible inputs (");
    let a: String = crate::text::debug_strings(existing);
    m.append(a.as_str());
    m.append(" then ");
    let b: String = crate::text::debug_strings(attempted);
    m.append(b.as_str());
    m.append("). A re-declaration may only add inputs, not change them.");
    m
}

fn lookup_tool_hash(hashes: &Vec<(String, String)>, processor: &str) -> (r: Option<String>)
    ensures
        opt_str(r) == tool_hash_for(pairs_view(hashes@), processor@),
{
    let ghost hs = pairs_view(hashes@);
    let mut i: usize = 0;
    proof {
        assert(hs.skip(0) =~= hs);
    }
    while i < hashes.len()
        invariant
            0 <= i <= hashes.len(),
            hs == pairs_view(hashes@),
            tool_hash_for(hs, processor@) == tool_hash_for(hs.skip(i as int), processor@),
        decreases hashes.len() - i,
    {
        proof {
            assert(hs.skip(i as int).drop_first() =~= hs.skip(i + 1));
            assert(hs.skip(i as int)[0] == (hashes@[i as int].0@, hashes@[i as int].1@));
        }
        if str_eq(hashes[i].0.as_str(), processor) {
            return Some(clone_string(&hashes[i].1));
        }
        i = i + 1;
    }
    proof {
        assert(hs.skip(i as int).len() == 0);
    }
    None
}

impl View for BuildGraph {
    type V = GraphView;

    closed spec fn view(&self) -> GraphView {
        GraphView {
            products: self.products@.map_values(|p: Product| p@),
            keys: self.checker_keys@.map_values(|k: CheckerKey| k@),
            dependencies: self.dependencies@.map_values(|v: Vec<usize>| v@),
        }
    }
}

impl BuildGraph {
    /// What the graph keeps of its reverse adjacency: one `dependents` row
    /// per product, mirroring `dependencies` edge for edge.
    pub closed spec fn internal_ok(&self) -> bool {
        let n = self.products.len();
        &&& self.dependents.len() == n
        &&& forall|p: int, k: int|
            0 <= p < n && 0 <= k < self.dependents@[p]@.len() ==> (#[trigger] self.dependents@[p]@[k])
                < n && self.dependents@[p]@[k] != p
        &&& forall|p: usize, c: usize|
            p < n && c < n ==> #[trigger] count_of(self.dependents@[p as int]@, c)
                == #[trigger] count_of(self.dependencies@[c as int]@, p)
    }

    /// The stored product at index `i`.
    pub closed spec fn product_at(&self, i: int) -> Product {
        self.products@[i]
    }

    /// The graph invariant.
    pub open spec fn wf(&self) -> bool {
        graph_wf(self@) && self.internal_ok()
    }

    /// What holds of the edges even after products were edited in place:
    /// one row per product, every edge names another product, and the
    /// reverse rows mirror it.
    pub open spec fn edges_wf(&self) -> bool {
        edges_ok(self@) && self.internal_ok()
    }

    pub fn new() -> (r: BuildGraph)
        ensures
            r.wf(),
            r@.products.len() == 0,
            r@.keys.len() == 0,
            r@.dependencies.len() == 0,
    {
        let r = BuildGraph {
            products: Vec::new(),
            checker_keys: Vec::new(),
            dependents: Vec::new(),
            dependencies: Vec::new(),
        };
        r
    }

    /// The product registered under a dedup key.
    fn lookup_key(&self, processor: &str, primary: &str, variant: &Option<String>) -> (r: Option<usize>)
        requires
            graph_wf(self@),
        ensures
            r matches Some(i) ==> key_lookup(self@.keys, processor@, primary@, opt_str(*variant)) == Some(
                i as nat,
            ),
            r is None ==> key_lookup(self@.keys, processor@, primary@, opt_str(*variant)) is None,
    {
        let ghost ks = self@.keys;
        let ghost var = opt_str(*variant);
        let mut i: usize = 0;
        while i < self.checker_keys.len()
            invariant
                0 <= i <= self.checker_keys.len(),
                ks == self@.keys,
                ks.len() == self.checker_keys.len(),
                keys_unique(ks),
                var == opt_str(*variant),
                forall|j: int| 0 <= j < i ==> !key_matches(#[trigger] ks[j], processor@, primary@, var),
            decreases self.checker_keys.len() - i,
        {
            let k: &CheckerKey = &self.checker_keys[i];
            proof {
                assert(ks[i as int] == self.checker_keys@[i as int]@);
            }
            if str_eq(k.processor.as_str(), processor) && str_eq(k.primary.as_str(), primary)
                && opt_eq(&k.variant, variant) {
                proof {
                    assert(key_matches(ks[i as int], processor@, primary@, var));
                    let j = choose|j: int| 0 <= j < ks.len() && key_matches(#[trigger] ks[j], processor@, primary@, var);
                    assert(key_matches(ks[j], ks[i as int].processor, ks[i as int].primary, ks[i as int].variant));
                    assert(j == i);
                }
                return Some(k.id);
            }
            i = i + 1;
        }
        None
    }

    /// Register a dedup key, replacing an entry with the same key.
    fn insert_key(&mut self, key: CheckerKey)
        requires
            graph_wf(old(self)@),
        ensures
            final(self)@ == (GraphView { keys: key_insert(old(self)@.keys, key@), ..old(self)@ }),
            final(self).products == old(self).products,
            final(self).dependents == old(self).dependents,
            final(self).dependencies == old(self).dependencies,
            keys_unique(final(self)@.keys),
            forall|i: int|
                0 <= i < final(self)@.keys.len() ==> (#[trigger] final(self)@.keys[i]).id
                    < final(self)@.products.len() || final(self)@.keys[i] == key@,
    {
        let ghost ks = self@.keys;
        let ghost kv = key@;
        let mut i: usize = 0;
        while i < self.checker_keys.len()
            invariant
                0 <= i <= self.checker_keys.len(),
                ks == self@.keys,
                self@ == old(self)@,
                self.products == old(self).products,
                self.dependents == old(self).dependents,
                self.dependencies == old(self).dependencies,
                ks.len() == self.checker_keys.len(),
                keys_unique(ks),
                graph_wf(old(self)@),
                kv == key@,
                forall|j: int| 0 <= j < i ==> !key_matches(#[trigger] ks[j], kv.processor, kv.primary, kv.variant),
            decreases self.checker_keys.len() - i,
        {
            proof {
                assert(ks[i as int] == self.checker_keys@[i as int]@);
            }
            if str_eq(self.checker_keys[i].processor.as_str(), key.processor.as_str())
                && str_eq(self.checker_keys[i].primary.as_str(), key.primary.as_str())
                && opt_eq(&self.checker_keys[i].variant, &key.variant) {
                proof {
                    assert(key_matches(ks[i as int], kv.processor, kv.primary, kv.variant));
                    let j = choose|j: int| 0 <= j < ks.len() && key_matches(#[trigger] ks[j], kv.processor, kv.primary, kv.variant);
                    assert(key_matches(ks[j], ks[i as int].processor, ks[i as int].primary, ks[i as int].variant));
                    assert(j == i);
                }
                self.checker_keys.set(i, key);
                proof {
                    assert(self@.keys =~= ks.update(i as int, kv));
                    assert(self@.products =~= old(self)@.products);
                    assert(self@.dependencies =~= old(self)@.dependencies);
                }
                return;
            }
            i = i + 1;
        }
        self.checker_keys.push(key);
        proof {
            assert(self@.keys =~= ks.push(kv));
            assert(self@.products =~= old(self)@.products);
            assert(self@.dependencies =~= old(self)@.dependencies);
        }
    }

    /// Whether `new_inputs` may replace `old_inputs` (equal, or a superset).
    fn accepts_inputs(old_inputs: &Vec<String>, new_inputs: &Vec<String>) -> (r: bool)
        ensures
            r == accepts(strs(old_inputs@), strs(new_inputs@)),
    {
        if strings_eq(old_inputs, new_inputs) {
            return true;
        }
        let mut i: usize = 0;
        while i < old_inputs.len()
            invariant
                0 <= i <= old_inputs.len(),
                strs(old_inputs@) != strs(new_inputs@),
                forall|j: int| 0 <= j < i ==> strs(new_inputs@).contains(#[trigger] old_inputs@[j]@),
            decreases old_inputs.len() - i,
        {
            if !strings_contain(new_inputs, old_inputs[i].as_str()) {
                proof {
                    assert(strs(old_inputs@)[i as int] == old_inputs@[i as int]@);
                    assert(strs(old_inputs@).contains(old_inputs@[i as int]@));
                }
                return false;
            }
            i = i + 1;
        }
        proof {
            assert forall|x: Seq<char>| #[trigger] strs(old_inputs@).contains(x) implies strs(
                new_inputs@,
            ).contains(x) by {
                let j = choose|j: int| 0 <= j < strs(old_inputs@).len() && strs(old_inputs@)[j] == x;
                assert(old_inputs@[j]@ == x);
            }
        }
        true
    }

    /// If `new_inputs` keeps every existing input of product `id`, they
    /// replace its inputs and the result is true; otherwise nothing changes
    /// and the result is false.
    fn try_update_inputs(&mut self, id: usize, new_inputs: Vec<String>) -> (r: bool)
        requires
            old(self).wf(),
            id < old(self).products.len(),
        ensures
            final(self).wf(),
            r == accepts(old(self)@.products[id as int].inputs, strs(new_inputs@)),
            r ==> final(self)@ == set_inputs(old(self)@, id as int, strs(new_inputs@)),
            !r ==> final(self)@ == old(self)@,
    {
        proof {
            assert(self@.products[id as int] == self.products@[id as int]@);
        }
        if !Self::accepts_inputs(&self.products[id].inputs, &new_inputs) {
            return false;
        }
        let ghost g = self@;
        let ghost old_inputs = g.products[id as int].inputs;
        self.products[id].inputs = new_inputs;
        proof {
            if old_inputs.len() > 0 && old_inputs != strs(new_inputs@) {
                assert(old_inputs.contains(old_inputs[0]));
                assert(strs(new_inputs@).contains(old_inputs[0]));
            }
            assert forall|i: int| 0 <= i < self@.keys.len() implies self@.products[(
            #[trigger] self@.keys[i]).id as int].inputs.len() > 0 by {
                assert(self@.keys[i] == g.keys[i]);
            }
            assert(self@.products =~= set_inputs(g, id as int, strs(new_inputs@)).products);
            assert(self@.keys =~= g.keys);
            assert(self@.dependencies =~= g.dependencies);
            assert(self@ == set_inputs(g, id as int, strs(new_inputs@)));
            assert forall|i: int, j: int, x: Seq<char>|
                0 <= i < self@.products.len() && 0 <= j < self@.products.len()
                    && #[trigger] self@.products[i].outputs.contains(x)
                    && #[trigger] self@.products[j].outputs.contains(x) implies i == j by {
                assert(self@.products[i].outputs == g.products[i].outputs);
                assert(self@.products[j].outputs == g.products[j].outputs);
            }
            assert forall|i: int| 0 <= i < self@.products.len() implies (
            #[trigger] self@.products[i]).id == i by {
                assert(self@.products[i].id == g.products[i].id);
            }
        }
        true
    }

    /// Register a product into every index and give it the next id.
    fn register_product(&mut self, product: Product) -> (id: usize)
        requires
            old(self).wf(),
            forall|k: int|
                0 <= k < product@.outputs.len() ==> owner_of(
                    old(self)@.products,
                    #[trigger] product@.outputs[k],
                ) is None,
        ensures
            final(self).wf(),
            final(self)@ == register(old(self)@, product@),
            id == old(self)@.products.len(),
    {
        let mut product = product;
        let id: usize = self.products.len();
        let ghost g = self@;
        let ghost pv = product@;
        product.id = id;
        if product.outputs.len() == 0 && product.inputs.len() > 0 {
            let key = CheckerKey {
                processor: clone_string(&product.processor),
                primary: clone_string(&product.inputs[0]),
                variant: clone_opt(&product.variant),
                id,
            };
            proof {
                assert(strs(product.inputs@)[0] == product.inputs@[0]@);
            }
            self.insert_key(key);
        }
        let ghost keys_mid = self@.keys;
        self.products.push(product);
        self.dependents.push(Vec::new());
        self.dependencies.push(Vec::new());
        proof {
            let r = register(g, pv);
            assert(self@.products =~= r.products);
            assert(self@.keys =~= keys_mid);
            assert(self@.keys =~= r.keys);
            assert(self@.dependencies =~= r.dependencies);
            let n = g.products.len();
            assert forall|i: int, j: int, x: Seq<char>|
                0 <= i < self@.products.len() && 0 <= j < self@.products.len()
                    && #[trigger] self@.products[i].outputs.contains(x)
                    && #[trigger] self@.products[j].outputs.contains(x) implies i == j by {
                if i < n && j < n {
                    assert(self@.products[i] == g.products[i]);
                    assert(self@.products[j] == g.products[j]);
                } else if i == n && j < n {
                    assert(self@.products[j] == g.products[j]);
                    let k = choose|k: int| 0 <= k < pv.outputs.len() && pv.outputs[k] == x;
                    assert(owner_of(g.products, pv.outputs[k]) is None);
                    assert(g.products[j].outputs.contains(x));
                } else if j == n && i < n {
                    assert(self@.products[i] == g.products[i]);
                    let k = choose|k: int| 0 <= k < pv.outputs.len() && pv.outputs[k] == x;
                    assert(owner_of(g.products, pv.outputs[k]) is None);
                    assert(g.products[i].outputs.contains(x));
                }
            }
            assert forall|p: usize, c: usize|
                p < n + 1 && c < n + 1 implies #[trigger] count_of(
                    self.dependents@[p as int]@,
                    c,
                ) == #[trigger] count_of(self.dependencies@[c as int]@, p) by {
                if p < n && c < n {
                } else if p == n {
                    assert(self.dependents@[p as int]@ =~= Seq::<usize>::empty());
                    if c < n {
                        assert(self.dependencies@[c as int]@ == g.dependencies[c as int]);
                        lemma_count_absent(self.dependencies@[c as int]@, p);
                    } else {
                        assert(self.dependencies@[c as int]@ =~= Seq::<usize>::empty());
                    }
                } else {
                    assert(self.dependencies@[c as int]@ =~= Seq::<usize>::empty());
                    lemma_count_absent(self.dependents@[p as int]@, c);
                }
            }
        }
        id
    }

    /// Declare a product. A re-declaration of an existing product (same
    /// checker key, or same processor and outputs) may grow its inputs; any
    /// other clash with an existing product is an error.
    pub fn add_product_with_variant(
        &mut self,
        inputs: Vec<String>,
        outputs: Vec<String>,
        processor: &str,
        config_hash: Option<String>,
        variant: Option<&str>,
    ) -> (r: Result<usize, RsconstructError>)
        requires
            old(self).wf(),
        ensures
            final(self).wf(),
            add_post(
                old(self)@,
                final(self)@,
                r,
                strs(inputs@),
                strs(outputs@),
                processor@,
                opt_str(config_hash),
                opt_slice(variant),
            ),
            r matches Ok(id) ==> id < final(self)@.products.len(),
    {
        let ghost g = self@;
        let ghost ins = strs(inputs@);
        let ghost outs = strs(outputs@);
        let variant_owned: Option<String> = opt_to_owned(variant);
        if outputs.len() == 0 && inputs.len() > 0 {
            proof {
                assert(ins[0] == inputs@[0]@);
            }
            match self.lookup_key(processor, inputs[0].as_str(), &variant_owned) {
                Some(existing_id) => {
                    let attempted: Vec<String> = clone_strings(&inputs);
                    if !self.try_update_inputs(existing_id, inputs) {
                        proof {
                            assert(self@.products[existing_id as int] == self.products@[existing_id as int]@);
                        }
                        let existing: &Product = &self.products[existing_id];
                        let msg: String = input_conflict_message(
                            processor,
                            existing.inputs[0].as_str(),
                            &existing.inputs,
                            &attempted,
                        );
                        return Err(RsconstructError::new(RsconstructExitCode::GraphError, msg.as_str()));
                    }
                    return Ok(existing_id);
                },
                None => {},
            }
        }
        let mut k: usize = 0;
        proof {
            assert(add_outcome(g, ins, outs, processor@, opt_slice(variant)) == output_outcome(
                g,
                ins,
                outs,
                processor@,
            ));
        }
        while k < outputs.len()
            invariant
                0 <= k <= outputs.len(),
                self.wf(),
                self@ == g,
                g == old(self)@,
                opt_str(variant_owned) == opt_slice(variant),
                outs == strs(outputs@),
                ins == strs(inputs@),
                first_owned(g.products, outs, 0) == first_owned(g.products, outs, k as int),
                add_outcome(g, ins, outs, processor@, opt_slice(variant)) == output_outcome(
                    g,
                    ins,
                    outs,
                    processor@,
                ),
            decreases outputs.len() - k,
        {
            proof {
                assert(outs[k as int] == outputs@[k as int]@);
            }
            match self.find_owner(outputs[k].as_str()) {
                Some(e) => {
                    proof {
                        lemma_owner_bound(g.products, outs[k as int]);
                        assert(first_owned(g.products, outs, k as int) == Some((k as nat, e as nat)));
                        assert(self@.products[e as int] == self.products@[e as int]@);
                    }
                    let same_processor: bool = str_eq(self.products[e].processor.as_str(), processor);
                    let same_outputs: bool = strings_eq(&self.products[e].outputs, &outputs);
                    if same_processor && same_outputs {
                        if self.try_update_inputs(e, inputs) {
                            return Ok(e);
                        }
                    }
                    proof {
                        assert(self@ == g);
                    }
                    let msg: String = output_conflict_message(
                        outputs[k].as_str(),
                        self.products[e].processor.as_str(),
                        processor,
                    );
                    return Err(RsconstructError::new(RsconstructExitCode::GraphError, msg.as_str()));
                },
                None => {
                    proof {
                        assert(first_owned(g.products, outs, k as int) == first_owned(g.products, outs, k + 1));
                    }
                },
            }
            k = k + 1;
        }
        proof {
            assert forall|j: int| 0 <= j < outs.len() implies owner_of(g.products, #[trigger] outs[j]) is None by {
                lemma_first_owned_none(g.products, outs, 0, j);
            }
        }
        let n: usize = self.products.len();
        let product: Product = match variant {
            Some(v) => Product::with_variant(inputs, outputs, processor, n, config_hash, v),
            None => Product::new(inputs, outputs, processor, n, config_hash),
        };
        let id: usize = self.register_product(product);
        Ok(id)
    }

    /// Link every product to the products that produce its inputs.
    pub fn resolve_dependencies(&mut self)
        requires
            old(self).wf(),
        ensures
            final(self).wf(),
            final(self)@ == resolved(old(self)@),
    {
        let ghost g = self@;
        let ghost ps = self@.products;
        let n: usize = self.products.len();
        let mut c: usize = 0;
        while c < n
            invariant
                n == self.products.len(),
                0 <= c <= n,
                ps == g.products,
                self@.products == g.products,
                self@.keys == g.keys,
                graph_wf(g),
                self.wf(),
                forall|x: int| 0 <= x < c ==> #[trigger] self@.dependencies[x] == g.dependencies[x] + deps_of(ps, x),
                forall|x: int| c <= x < n ==> #[trigger] self@.dependencies[x] == g.dependencies[x],
            decreases n - c,
        {
            proof {
                assert(self@.products[c as int] == self.products@[c as int]@);
            }
            let m: usize = self.products[c].inputs.len();
            let mut k: usize = 0;
            proof {
                assert(self@.dependencies[c as int] =~= g.dependencies[c as int] + deps_prefix(ps, c as int, 0));
            }
            while k < m
                invariant
                    n == self.products.len(),
                    0 <= c < n,
                    0 <= k <= m,
                    m == ps[c as int].inputs.len(),
                    ps == g.products,
                    self@.products == g.products,
                    self@.keys == g.keys,
                    graph_wf(g),
                    self.wf(),
                    forall|x: int| 0 <= x < c ==> #[trigger] self@.dependencies[x] == g.dependencies[x] + deps_of(ps, x),
                    forall|x: int| c < x < n ==> #[trigger] self@.dependencies[x] == g.dependencies[x],
                    self@.dependencies[c as int] == g.dependencies[c as int] + deps_prefix(ps, c as int, k as int),
                decreases m - k,
            {
                proof {
                    assert(self@.products[c as int] == self.products@[c as int]@);
                    assert(ps[c as int].inputs[k as int] == self.products@[c as int].inputs@[k as int]@);
                }
                let owner: Option<usize> = self.find_owner(self.products[c].inputs[k].as_str());
                let ghost before = self@;
                let ghost dep_before = self.dependents@;
                let ghost dcy_before = self.dependencies@;
                match owner {
                    Some(p) => {
                        proof {
                            lemma_owner_bound(ps, ps[c as int].inputs[k as int]);
                        }
                        if p != c {
                            self.dependents[p].push(c);
                            self.dependencies[c].push(p);
                            proof {
                                assert(self@.dependencies[c as int] =~= g.dependencies[c as int] + deps_prefix(ps, c as int, k + 1));
                                assert forall|x: int| 0 <= x < n && x != c implies #[trigger] self@.dependencies[x] == before.dependencies[x] by {
                                    assert(self.dependencies@[x] == dcy_before[x]);
                                }
                                assert forall|pp: usize, cc: usize|
                                    pp < n && cc < n implies #[trigger] count_of(
                                        self.dependents@[pp as int]@,
                                        cc,
                                    ) == #[trigger] count_of(self.dependencies@[cc as int]@, pp) by {
                                    assert(count_of(dep_before[pp as int]@, cc) == count_of(dcy_before[cc as int]@, pp));
                                    if pp == p {
                                        lemma_count_push(dep_before[pp as int]@, c, cc);
                                        assert(self.dependents@[pp as int]@ == dep_before[pp as int]@.push(c));
                                    } else {
                                        assert(self.dependents@[pp as int]@ == dep_before[pp as int]@);
                                    }
                                    if cc == c {
                                        lemma_count_push(dcy_before[cc as int]@, p, pp);
                                        assert(self.dependencies@[cc as int]@ == dcy_before[cc as int]@.push(p));
                                    } else {
                                        assert(self.dependencies@[cc as int]@ == dcy_before[cc as int]@);
                                    }
                                }
                                assert forall|pp: int, kk: int|
                                    0 <= pp < n && 0 <= kk < self.dependents@[pp]@.len() implies (#[trigger] self.dependents@[pp]@[kk])
                                        < n && self.dependents@[pp]@[kk] != pp by {
                                    if pp == p && kk == dep_before[pp]@.len() {
                                    } else {
                                        assert(self.dependents@[pp]@[kk] == dep_before[pp]@[kk]);
                                    }
                                }
                                assert forall|cc: int, kk: int|
                                    0 <= cc < self@.dependencies.len() && 0 <= kk < self@.dependencies[cc].len() implies (
                                    #[trigger] self@.dependencies[cc][kk]) < self@.products.len() && self@.dependencies[cc][kk] != cc by {
                                    if cc == c && kk == before.dependencies[cc].len() {
                                    } else {
                                        assert(self@.dependencies[cc][kk] == before.dependencies[cc][kk]);
                                    }
                                }
                                assert(self@.products =~= before.products);
                                assert(self@.keys =~= before.keys);
                            }
                        } else {
                            proof {
                                assert(self@.dependencies[c as int] =~= g.dependencies[c as int] + deps_prefix(ps, c as int, k + 1));
                            }
                        }
                    },
                    None => {
                        proof {
                            assert(self@.dependencies[c as int] =~= g.dependencies[c as int] + deps_prefix(ps, c as int, k + 1));
                        }
                    },
                }
                k = k + 1;
            }
            c = c + 1;
        }
        proof {
            assert(self@.dependencies =~= resolved(g).dependencies);
        }
    }

    /// Topological sort: product ids in execution order, each after all of
    /// its dependencies and, among the products ready at each step, the
    /// smallest id first. Fails exactly when the dependencies form a cycle.
    pub fn topological_sort(&self) -> (r: Result<Vec<usize>, RsconstructError>)
        requires
            self.edges_wf(),
        ensures
            r matches Ok(o) ==> is_topological_order(self@.dependencies, o@) && is_least_first(
                self@.dependencies,
                o@,
            ),
            r is Err ==> !has_topological_order(self@.dependencies),
            r matches Err(e) ==> e.exit_code == RsconstructExitCode::GraphError && e.message@
                == "Cycle detected in build graph"@,
    {
        let n: usize = self.products.len();
        let ghost deps = self@.dependencies;
        let mut in_degree: Vec<usize> = Vec::new();
        let mut in_queue: Vec<bool> = Vec::new();
        let mut placed: Vec<bool> = Vec::new();
        let mut i: usize = 0;
        while i < n
            invariant
                n == self.products.len(),
                deps == self@.dependencies,
                self.edges_wf(),
                0 <= i <= n,
                in_degree.len() == i,
                in_queue.len() == i,
                placed.len() == i,
                forall|u: int| 0 <= u < i ==> #[trigger] in_degree@[u] == deps[u].len(),
                forall|u: int| 0 <= u < i ==> #[trigger] in_queue@[u] == (deps[u].len() == 0),
                forall|u: int| 0 <= u < i ==> !#[trigger] placed@[u],
            decreases n - i,
        {
            proof {
                assert(deps[i as int] == self.dependencies@[i as int]@);
            }
            let d: usize = self.dependencies[i].len();
            in_degree.push(d);
            in_queue.push(d == 0);
            placed.push(false);
            i = i + 1;
        }
        proof {
            assert(placed@ =~= Seq::new(n as nat, |i: int| false));
            lemma_num_unplaced_all(n as nat);
            assert forall|u: int| 0 <= u < n implies #[trigger] in_degree@[u] == unplaced_count(deps[u], placed@) by {
                lemma_unplaced_all(deps[u], placed@);
            }
        }
        let mut result: Vec<usize> = Vec::new();
        loop
            invariant
                n == self.products.len(),
                deps == self@.dependencies,
                deps.len() == n,
                self.edges_wf(),
                in_degree.len() == n,
                in_queue.len() == n,
                placed.len() == n,
                result@.no_duplicates(),
                forall|i: int| 0 <= i < result.len() ==> (#[trigger] result@[i]) < n,
                forall|u: usize| u < n ==> (#[trigger] placed@[u as int] <==> result@.contains(u)),
                forall|u: int| 0 <= u < n ==> #[trigger] in_degree@[u] == unplaced_count(deps[u], placed@),
                forall|u: int| 0 <= u < n ==> (#[trigger] in_queue@[u] <==> (!placed@[u] && in_degree@[u] == 0)),
                forall|u: int, k: int|
                    0 <= u < n && placed@[u] && 0 <= k < deps[u].len() ==> placed@[#[trigger] deps[u][k] as int],
                forall|i: int| 0 <= i < result.len() ==> ready(deps, result@.take(i), #[trigger] result@[i] as int),
                is_least_first(deps, result@),
                result.len() + num_unplaced(placed@) == n,
            ensures
                forall|u: int| 0 <= u < n ==> !#[trigger] in_queue@[u],
            decreases n - result.len(),
        {
            // the smallest queued product
            let mut v: usize = 0;
            while v < n && !in_queue[v]
                invariant
                    0 <= v <= n,
                    in_queue.len() == n,
                    forall|u: int| 0 <= u < v ==> !#[trigger] in_queue@[u],
                decreases n - v,
            {
                v = v + 1;
            }
            if v == n {
                break;
            }
            let ghost old_result = result@;
            let ghost old_placed = placed@;
            let ghost old_degree = in_degree@;
            proof {
                assert(!placed@[v as int] && in_degree@[v as int] == 0);
                assert(!result@.contains(v));
                lemma_unplaced_zero(deps[v as int], placed@);
                assert forall|k: int| 0 <= k < deps[v as int].len() implies result@.contains(#[trigger] deps[v as int][k]) by {
                    assert(placed@[deps[v as int][k] as int]);
                }
                lemma_num_unplaced_place(placed@, v as int);
            }
            in_queue.set(v, false);
            placed.set(v, true);
            result.push(v);
            proof {
                assert(result@.take(old_result.len() as int) =~= old_result);
                assert forall|i: int| 0 <= i < result.len() implies ready(deps, result@.take(i), #[trigger] result@[i] as int) by {
                    if i < old_result.len() {
                        assert(result@.take(i) =~= old_result.take(i));
                    }
                }
                assert forall|i: int, w: usize|
                    #![trigger result@[i], result@.take(i).contains(w)]
                    0 <= i < result.len() && w < deps.len() && !result@.take(i).contains(w)
                        && ready(deps, result@.take(i), w as int) implies result@[i] <= w by {
                    if i < old_result.len() {
                        assert(result@.take(i) =~= old_result.take(i));
                        assert(old_result[i] == result@[i]);
                    } else {
                        assert(!old_placed[w as int]);
                        lemma_unplaced_zero(deps[w as int], old_placed);
                        assert forall|k: int| 0 <= k < deps[w as int].len() implies old_placed[#[trigger] deps[w as int][k] as int] by {
                            assert(old_result.contains(deps[w as int][k]));
                        }
                        assert(old_degree[w as int] == 0);
                        assert(in_queue@[w as int] || w == v);
                    }
                }
                assert forall|u: usize| u < n implies (#[trigger] placed@[u as int] <==> result@.contains(u)) by {
                    if u == v {
                        assert(result@[old_result.len() as int] == v);
                    } else {
                        if result@.contains(u) {
                            let j = choose|j: int| 0 <= j < result@.len() && result@[j] == u;
                            assert(j < old_result.len());
                            assert(old_result[j] == u);
                        }
                        if old_result.contains(u) {
                            let j = choose|j: int| 0 <= j < old_result.len() && old_result[j] == u;
                            assert(result@[j] == u);
                        }
                    }
                }
                assert forall|u: int| 0 <= u < n implies old_degree[u] == unplaced_count(deps[u], placed@)
                    + count_of(deps[u], v) by {
                    lemma_unplaced_place(deps[u], old_placed, v);
                    assert(placed@ == old_placed.update(v as int, true));
                }
            }
            proof {
                assert(self.dependents@[v as int]@ == self.dependents@[v as int]@);
            }
            let m: usize = self.dependents[v].len();
            let mut j: usize = 0;
            while j < m
                invariant
                    n == self.products.len(),
                    deps == self@.dependencies,
                    deps.len() == n,
                    self.edges_wf(),
                    v < n,
                    placed@[v as int],
                    !old_placed[v as int],
                    m == self.dependents@[v as int]@.len(),
                    0 <= j <= m,
                    in_degree.len() == n,
                    in_queue.len() == n,
                    placed.len() == n,
                    forall|u: int| 0 <= u < n ==> old_degree[u] == unplaced_count(deps[u], placed@)
                        + count_of(deps[u], v),
                    forall|u: int| 0 <= u < n ==> #[trigger] in_degree@[u] + count_of(
                        self.dependents@[v as int]@.take(j as int),
                        u as usize,
                    ) == old_degree[u],
                    forall|u: int| 0 <= u < n ==> (#[trigger] in_queue@[u] <==> (!placed@[u] && in_degree@[u] == 0)),
                    forall|u: int, k: int|
                        0 <= u < n && old_placed[u] && 0 <= k < deps[u].len() ==> old_placed[#[trigger] deps[u][k] as int],
                    forall|u: int| 0 <= u < n && u != v ==> old_placed[u] == #[trigger] placed@[u],
                decreases m - j,
            {
                let d: usize = self.dependents[v][j];
                let ghost dv = self.dependents@[v as int]@;
                proof {
                    assert(d == dv[j as int]);
                    assert(d < n && d != v);
                    assert(dv.take(j + 1) =~= dv.take(j as int).push(d));
                    lemma_count_push(dv.take(j as int), d, d);
                    lemma_count_take_le(dv, j + 1, d);
                    assert(self.internal_ok());
                    assert(deps[d as int] == self.dependencies@[d as int]@);
                    assert(count_of(self.dependents@[v as int]@, d) == count_of(self.dependencies@[d as int]@, v));
                    assert(count_of(dv, d) == count_of(deps[d as int], v));
                    assert(in_degree@[d as int] > 0);
                }
                in_degree.set(d, in_degree[d] - 1);
                if in_degree[d] == 0 {
                    proof {
                        if placed@[d as int] {
                            lemma_count_present(dv, d, j as int);
                            let kk = lemma_count_positive(deps[d as int], v);
                            assert(old_placed[d as int]);
                            assert(old_placed[deps[d as int][kk] as int]);
                        }
                    }
                    in_queue.set(d, true);
                }
                proof {
                    assert forall|u: int| 0 <= u < n implies #[trigger] in_degree@[u] + count_of(
                        dv.take(j + 1),
                        u as usize,
                    ) == old_degree[u] by {
                        lemma_count_push(dv.take(j as int), d, u as usize);
                    }
                }
                j = j + 1;
            }
            proof {
                let dv = self.dependents@[v as int]@;
                assert(dv.take(m as int) =~= dv);
                assert forall|u: int| 0 <= u < n implies #[trigger] in_degree@[u] == unplaced_count(deps[u], placed@) by {
                    assert(self.internal_ok());
                    assert(deps[u] == self.dependencies@[u]@);
                    assert(count_of(self.dependents@[v as int]@, u as usize) == count_of(self.dependencies@[(u as usize) as int]@, v));
                    assert(count_of(dv, u as usize) == count_of(deps[u], v));
                }
                assert forall|u: int, k: int|
                    0 <= u < n && placed@[u] && 0 <= k < deps[u].len() implies placed@[#[trigger] deps[u][k] as int] by {
                    if u == v {
                        assert(result@.take(old_result.len() as int) =~= old_result);
                        assert(ready(deps, old_result, v as int));
                        assert(old_result.contains(deps[u][k]));
                        let jj = choose|jj: int| 0 <= jj < old_result.len() && old_result[jj] == deps[u][k];
                        assert(result@[jj] == deps[u][k]);
                    } else {
                        assert(old_placed[u]);
                        assert(old_placed[deps[u][k] as int]);
                        if deps[u][k] != v {
                            assert(placed@[deps[u][k] as int]);
                        }
                    }
                }
            }
        }
        if result.len() != n {
            proof {
                let w = lemma_num_unplaced_positive(placed@);
                assert forall|u: int| 0 <= u < deps.len() && !#[trigger] placed@[u] implies exists|k: int|
                    0 <= k < deps[u].len() && !placed@[#[trigger] deps[u][k] as int] by {
                    assert(!in_queue@[u]);
                    lemma_unplaced_zero(deps[u], placed@);
                }
                let stuck = placed@.map_values(|b: bool| !b);
                assert forall|u: int| 0 <= u < deps.len() && #[trigger] stuck[u] implies exists|k: int|
                    0 <= k < deps[u].len() && stuck[#[trigger] deps[u][k] as int] by {
                    assert(!placed@[u]);
                    let k = choose|k: int| 0 <= k < deps[u].len() && !placed@[#[trigger] deps[u][k] as int];
                    assert(stuck[deps[u][k] as int]);
                }
                lemma_stuck_set_blocks_order(deps, stuck, w as usize);
            }
            return Err(RsconstructError::new(RsconstructExitCode::GraphError, "Cycle detected in build graph"));
        }
        proof {
            assert forall|u: usize| u < deps.len() implies #[trigger] result@.contains(u) by {
                assert(num_unplaced(placed@) == 0);
                lemma_num_unplaced_zero(placed@, u as int);
            }
        }
        Ok(result)
    }

    /// Declare a product without a variant (see `add_product_with_variant`).
    pub fn add_product(
        &mut self,
        inputs: Vec<String>,
        outputs: Vec<String>,
        processor: &str,
        config_hash: Option<String>,
    ) -> (r: Result<usize, RsconstructError>)
        requires
            old(self).wf(),
        ensures
            final(self).wf(),
            add_post(
                old(self)@,
                final(self)@,
                r,
                strs(inputs@),
                strs(outputs@),
                processor@,
                opt_str(config_hash),
                None,
            ),
            r matches Ok(id) ==> id < final(self)@.products.len(),
    {
        self.add_product_with_variant(inputs, outputs, processor, config_hash, None)
    }

    /// Declare a product whose output directory is cached and restored as a
    /// whole.
    pub fn add_product_with_output_dir(
        &mut self,
        inputs: Vec<String>,
        outputs: Vec<String>,
        processor: &str,
        config_hash: Option<String>,
        output_dir: String,
    ) -> (r: Result<usize, RsconstructError>)
        requires
            old(self).wf(),
        ensures
            final(self).wf(),
            exists|mid: GraphView|
                add_post(
                    old(self)@,
                    mid,
                    r,
                    strs(inputs@),
                    strs(outputs@),
                    processor@,
                    opt_str(config_hash),
                    None,
                ) && (r matches Ok(id) ==> final(self)@ == set_output_dirs(mid, id as int, seq![output_dir@]))
                    && (r is Err ==> final(self)@ == mid),
            r matches Ok(id) ==> id < final(self)@.products.len(),
    {
        let ghost od = output_dir@;
        let dirs: Vec<String> = vec![output_dir];
        proof {
            assert(strs(dirs@) =~= seq![od]);
        }
        self.add_product_with_output_dirs_and_variant(inputs, outputs, processor, config_hash, dirs, None)
    }

    /// Declare a product with an output directory and an optional variant.
    pub fn add_product_with_output_dir_and_variant(
        &mut self,
        inputs: Vec<String>,
        outputs: Vec<String>,
        processor: &str,
        config_hash: Option<String>,
        output_dir: String,
        variant: Option<&str>,
    ) -> (r: Result<usize, RsconstructError>)
        requires
            old(self).wf(),
        ensures
            final(self).wf(),
            exists|mid: GraphView|
                add_post(
                    old(self)@,
                    mid,
                    r,
                    strs(inputs@),
                    strs(outputs@),
                    processor@,
                    opt_str(config_hash),
                    opt_slice(variant),
                ) && (r matches Ok(id) ==> final(self)@ == set_output_dirs(mid, id as int, seq![output_dir@]))
                    && (r is Err ==> final(self)@ == mid),
            r matches Ok(id) ==> id < final(self)@.products.len(),
    {
        let ghost od = output_dir@;
        let dirs: Vec<String> = vec![output_dir];
        proof {
            assert(strs(dirs@) =~= seq![od]);
        }
        self.add_product_with_output_dirs_and_variant(inputs, outputs, processor, config_hash, dirs, variant)
    }

    /// Declare a product with output directories and an optional variant:
    /// the declared (or re-declared) product's output directories become
    /// `output_dirs`.
    pub fn add_product_with_output_dirs_and_variant(
        &mut self,
        inputs: Vec<String>,
        outputs: Vec<String>,
        processor: &str,
        config_hash: Option<String>,
        output_dirs: Vec<String>,
        variant: Option<&str>,
    ) -> (r: Result<usize, RsconstructError>)
        requires
            old(self).wf(),
        ensures
            final(self).wf(),
            exists|mid: GraphView|
                add_post(
                    old(self)@,
                    mid,
                    r,
                    strs(inputs@),
                    strs(outputs@),
                    processor@,
                    opt_str(config_hash),
                    opt_slice(variant),
                ) && (r matches Ok(id) ==> final(self)@ == set_output_dirs(mid, id as int, strs(output_dirs@)))
                    && (r is Err ==> final(self)@ == mid),
            r matches Ok(id) ==> id < final(self)@.products.len(),
    {
        let r = self.add_product_with_variant(inputs, outputs, processor, config_hash, variant);
        let ghost mid = self@;
        match r {
            Ok(id) => {
                proof {
                    assert(id < self.products.len()) by {
                        reveal_with_fuel(first_owned, 1);
                    }
                }
                self.products[id].output_dirs = output_dirs;
                proof {
                    assert(self@.products =~= set_output_dirs(mid, id as int, strs(output_dirs@)).products);
                    assert(self@.keys =~= mid.keys);
                    assert(self@.dependencies =~= mid.dependencies);
                    assert forall|i: int, j: int, x: Seq<char>|
                        0 <= i < self@.products.len() && 0 <= j < self@.products.len()
                            && #[trigger] self@.products[i].outputs.contains(x)
                            && #[trigger] self@.products[j].outputs.contains(x) implies i == j by {
                        assert(self@.products[i].outputs == mid.products[i].outputs);
                        assert(self@.products[j].outputs == mid.products[j].outputs);
                    }
                    assert forall|i: int| 0 <= i < self@.products.len() implies (
                    #[trigger] self@.products[i]).id == i by {
                        assert(self@.products[i].id == mid.products[i].id);
                    }
                    assert forall|i: int| 0 <= i < self@.keys.len() implies self@.products[(
                    #[trigger] self@.keys[i]).id as int].inputs.len() > 0 by {
                        assert(self@.products[self@.keys[i].id as int].inputs == mid.products[self@.keys[i].id as int].inputs);
                    }
                }
                Ok(id)
            },
            Err(e) => Err(e),
        }
    }

    /// The product with id `id`, if there is one.
    pub fn get_product(&self, id: usize) -> (r: Option<&Product>)
        ensures
            r matches Some(p) ==> id < self@.products.len() && p@ == self@.products[id as int],
            r is None ==> id >= self@.products.len(),
    {
        if id < self.products.len() {
            Some(&self.products[id])
        } else {
            None
        }
    }

    /// Mutable access to the product with id `id`, if there is one.
    pub fn get_product_mut(&mut self, id: usize) -> (r: Option<&mut Product>)
        ensures
            r is None ==> id >= old(self)@.products.len() && final(self)@ == old(self)@,
            r matches Some(p) ==> id < old(self)@.products.len() && (*p)@ == old(self)@.products[id as int],
            r matches Some(p) ==> final(self)@.products == old(self)@.products.update(id as int, (*final(p))@),
            final(self)@.keys == old(self)@.keys,
            final(self)@.dependencies == old(self)@.dependencies,
            old(self).internal_ok() ==> final(self).internal_ok(),
    {
        if id < self.products.len() {
            Some(&mut self.products[id])
        } else {
            None
        }
    }

    /// All products, in id order.
    pub fn products(&self) -> (r: &[Product])
        ensures
            r@.map_values(|p: Product| p@) == self@.products,
    {
        self.products.as_slice()
    }

    /// The products that must be built before product `id`.
    pub fn get_dependencies(&self, id: usize) -> (r: &[usize])
        requires
            id < self@.products.len(),
            edges_ok(self@),
        ensures
            r@ == self@.dependencies[id as int],
    {
        self.dependencies[id].as_slice()
    }

    /// The id of the product that declares `path` as one of its outputs.
    pub fn path_owner(&self, path: &str) -> (r: Option<usize>)
        requires
            self.wf(),
        ensures
            r matches Some(i) ==> owner_of(self@.products, path@) == Some(i as nat),
            r is None ==> owner_of(self@.products, path@) is None,
    {
        self.find_owner(path)
    }

    /// Whether `path` is an output of a product other than `id`: such a
    /// path in a shared output directory belongs to that other product and
    /// is left out when `id`'s directory is cached.
    pub fn owned_by_other(&self, path: &str, id: usize) -> (r: bool)
        requires
            self.wf(),
        ensures
            r == (owner_of(self@.products, path@) matches Some(o) && o != id),
    {
        match self.path_owner(path) {
            Some(o) => o != id,
            None => false,
        }
    }

    /// Every product id that lists `path` as an input, ascending.
    pub fn products_consuming(&self, path: &str) -> (r: Vec<usize>)
        requires
            self.wf(),
        ensures
            r@ == consumers_of(self@.products, path@, self@.products.len() as int),
    {
        let mut r: Vec<usize> = Vec::new();
        let mut i: usize = 0;
        while i < self.products.len()
            invariant
                0 <= i <= self.products.len(),
                self@.products.len() == self.products.len(),
                r@ == consumers_of(self@.products, path@, i as int),
            decreases self.products.len() - i,
        {
            proof {
                assert(self@.products[i as int] == self.products@[i as int]@);
            }
            if strings_contain(&self.products[i].inputs, path) {
                r.push(i);
            }
            i = i + 1;
        }
        r
    }

    /// Mix each product's tool-version hash (looked up by processor name in
    /// `processor_tool_hashes`) into its cache key.
    pub fn apply_tool_version_hashes(&mut self, processor_tool_hashes: &Vec<(String, String)>)
        requires
            old(self).wf(),
        ensures
            final(self).wf(),
            final(self)@ == (GraphView {
                products: old(self)@.products.map_values(
                    |p: ProductView| with_tool_hash(p, pairs_view(processor_tool_hashes@)),
                ),
                ..old(self)@
            }),
    {
        let ghost g = self@;
        let ghost hs = pairs_view(processor_tool_hashes@);
        let n: usize = self.products.len();
        let mut i: usize = 0;
        while i < n
            invariant
                n == self.products.len(),
                0 <= i <= n,
                self@.keys == g.keys,
                self@.dependencies == g.dependencies,
                self.dependents == old(self).dependents,
                self.dependencies == old(self).dependencies,
                self@.products.len() == n,
                g.products.len() == n,
                hs == pairs_view(processor_tool_hashes@),
                forall|j: int| 0 <= j < i ==> #[trigger] self@.products[j] == with_tool_hash(g.products[j], hs),
                forall|j: int| i <= j < n ==> #[trigger] self@.products[j] == g.products[j],
            decreases n - i,
        {
            proof {
                assert(self@.products[i as int] == self.products@[i as int]@);
            }
            let h: Option<String> = lookup_tool_hash(processor_tool_hashes, self.products[i].processor.as_str());
            match h {
                Some(hash) => {
                    let ghost before = self@;
                    self.products[i].cache_key.push(KeyComponent::ToolVersion, hash.as_str());
                    proof {
                        assert(self@.products[i as int] == self.products@[i as int]@);
                        assert(self@.products[i as int] == with_tool_hash(g.products[i as int], hs));
                        assert forall|j: int| 0 <= j < n && j != i implies #[trigger] self@.products[j] == before.products[j] by {
                            assert(self.products@[j]@ == before.products[j]);
                        }
                        assert(self@.keys =~= g.keys);
                        assert(self@.dependencies =~= g.dependencies);
                    }
                },
                None => {
                    proof {
                        assert(self@.products[i as int] == with_tool_hash(g.products[i as int], hs));
                    }
                },
            }
            i = i + 1;
        }
        proof {
            assert(self@.products =~= g.products.map_values(|p: ProductView| with_tool_hash(p, hs)));
            assert forall|i: int, j: int, x: Seq<char>|
                0 <= i < self@.products.len() && 0 <= j < self@.products.len()
                    && #[trigger] self@.products[i].outputs.contains(x)
                    && #[trigger] self@.products[j].outputs.contains(x) implies i == j by {
                assert(self@.products[i].outputs == g.products[i].outputs);
                assert(self@.products[j].outputs == g.products[j].outputs);
            }
            assert forall|i: int| 0 <= i < self@.products.len() implies (#[trigger] self@.products[i]).id == i by {
                assert(self@.products[i].id == g.products[i].id);
            }
            assert forall|i: int| 0 <= i < self@.keys.len() implies self@.products[(
            #[trigger] self@.keys[i]).id as int].inputs.len() > 0 by {
                assert(self@.products[self@.keys[i].id as int].inputs == g.products[self@.keys[i].id as int].inputs);
            }
        }
    }

    /// Rebuild the graph from scratch keeping only the products flagged in
    /// `keep`, reassigning ids and re-linking dependencies.
    fn rebuild_retaining(&mut self, keep: &Vec<bool>)
        requires
            old(self).wf(),
            keep.len() == old(self).products.len(),
        ensures
            final(self).wf(),
            final(self)@ == rebuilt(old(self)@.products, keep@),
    {
        let ghost g = self@;
        let ghost ps = g.products;
        let n: usize = self.products.len();
        let mut old_products: Vec<Product> = Vec::new();
        std::mem::swap(&mut old_products, &mut self.products);
        self.checker_keys = Vec::new();
        self.dependents = Vec::new();
        self.dependencies = Vec::new();
        proof {
            assert(self@.products =~= empty_graph().products);
            assert(self@.keys =~= empty_graph().keys);
            assert(self@.dependencies =~= empty_graph().dependencies);
            assert(old_products@.map_values(|p: Product| p@) == ps);
            assert(ps.skip(0) =~= ps);
        }
        let mut idx: usize = 0;
        while idx < n
            invariant
                0 <= idx <= n,
                n == ps.len(),
                keep.len() == n,
                unique_owners(ps),
                old_products@.map_values(|p: Product| p@) == ps.skip(idx as int),
                old_products.len() == n - idx,
                self.wf(),
                self@ == registered_all(kept(ps, keep@, idx as int), kept(ps, keep@, idx as int).len() as int),
            decreases n - idx,
        {
            let ghost rest = old_products@;
            proof {
                assert(rest.map_values(|p: Product| p@)[0] == ps.skip(idx as int)[0]);
            }
            let product: Product = old_products.remove(0);
            proof {
                assert(product == rest[0]);
                assert(product@ == ps[idx as int]);
                assert(old_products@ =~= rest.drop_first());
                assert forall|i: int| 0 <= i < old_products@.len() implies #[trigger] old_products@[i]@ == ps.skip(idx + 1)[i] by {
                    assert(old_products@[i] == rest[i + 1]);
                    assert(rest.map_values(|p: Product| p@)[i + 1] == ps.skip(idx as int)[i + 1]);
                }
                assert(old_products@.map_values(|p: Product| p@) =~= ps.skip(idx + 1));
            }
            if keep[idx] {
                proof {
                    let k = kept(ps, keep@, idx as int);
                    let pos = lemma_kept_positions(ps, keep@, idx as int);
                    lemma_registered_products(k, k.len() as int);
                    assert forall|kk: int|
                        0 <= kk < product@.outputs.len() implies owner_of(
                            self@.products,
                            #[trigger] product@.outputs[kk],
                        ) is None by {
                        let x = product@.outputs[kk];
                        if exists|i: int| 0 <= i < self@.products.len() && #[trigger] self@.products[i].outputs.contains(x) {
                            let i = choose|i: int| 0 <= i < self@.products.len() && #[trigger] self@.products[i].outputs.contains(x);
                            assert(self@.products[i].outputs == k[i].outputs);
                            assert(k[i] == ps[pos[i]]);
                            assert(ps[idx as int].outputs.contains(x));
                            assert(ps[pos[i]].outputs.contains(x));
                        }
                    }
                }
                self.register_product(product);
                proof {
                    let k1 = kept(ps, keep@, idx + 1);
                    assert(k1 == kept(ps, keep@, idx as int).push(ps[idx as int]));
                    assert(k1.drop_last() =~= kept(ps, keep@, idx as int));
                    lemma_registered_prefix(k1, kept(ps, keep@, idx as int), k1.len() as int - 1);
                }
            } else {
                proof {
                    assert(kept(ps, keep@, idx + 1) == kept(ps, keep@, idx as int));
                }
            }
            idx = idx + 1;
        }
        self.resolve_dependencies();
    }

    /// Remove the products for which `f` returns false, rebuilding every
    /// index and re-linking dependencies so the graph stays consistent.
    pub fn retain_products<F: Fn(&Product) -> bool>(&mut self, f: F)
        requires
            old(self).wf(),
            forall|p: &Product| #[trigger] f.requires((p,)),
        ensures
            final(self).wf(),
            exists|keep: Seq<bool>|
                keep.len() == old(self)@.products.len() && (forall|i: int|
                    0 <= i < keep.len() ==> #[trigger] f.ensures((&old(self).product_at(i),), keep[i]))
                    && final(self)@ == rebuilt(old(self)@.products, keep),
    {
        let mut keep: Vec<bool> = Vec::new();
        let mut i: usize = 0;
        while i < self.products.len()
            invariant
                0 <= i <= self.products.len(),
                keep.len() == i,
                self == old(self),
                forall|p: &Product| #[trigger] f.requires((p,)),
                forall|j: int| 0 <= j < i ==> #[trigger] f.ensures((&self.product_at(j),), keep@[j]),
            decreases self.products.len() - i,
        {
            let b: bool = f(&self.products[i]);
            keep.push(b);
            i = i + 1;
        }
        self.rebuild_retaining(&keep);
    }

    /// Which processors each processor depends on: one entry per processor
    /// that has a product, in name order, listing (in name order, once each)
    /// the other processors whose products its products depend on.
    pub fn processor_dependencies(&self) -> (r: Vec<(String, Vec<String>)>)
        requires
            self.wf(),
        ensures
            strictly_sorted(entry_keys(r@), false),
            forall|p: Seq<char>| #[trigger] entry_keys(r@).contains(p) <==> has_processor(self@.products, p),
            entry_sets(r@).len() == r@.len(),
            forall|e: int| 0 <= e < r@.len() ==> strictly_sorted(#[trigger] entry_sets(r@)[e], false),
            forall|e: int, q: Seq<char>|
                0 <= e < r@.len() ==> (#[trigger] entry_sets(r@)[e].contains(q) <==> depends_on(
                    self@,
                    entry_keys(r@)[e],
                    q,
                )),
    {
        let ghost g = self@;
        let n: usize = self.products.len();
        let mut names: Vec<String> = Vec::new();
        let mut i: usize = 0;
        while i < n
            invariant
                n == self.products.len(),
                g == self@,
                g.products.len() == n,
                0 <= i <= n,
                strictly_sorted(strs(names@), false),
                forall|p: Seq<char>| #[trigger] strs(names@).contains(p) <==> exists|j: int| 0 <= j < i && (#[trigger] g.products[j]).processor == p,
            decreases n - i,
        {
            proof {
                assert(g.products[i as int] == self.products@[i as int]@);
            }
            let ghost before = strs(names@);
            sorted_insert(&mut names, self.products[i].processor.clone(), false);
            proof {
                assert forall|p: Seq<char>| #[trigger] strs(names@).contains(p) implies exists|j: int| 0 <= j < i + 1 && (#[trigger] g.products[j]).processor == p by {
                    if p == g.products[i as int].processor {
                    } else {
                        assert(before.contains(p));
                    }
                }
                assert forall|p: Seq<char>| (exists|j: int| 0 <= j < i + 1 && (#[trigger] g.products[j]).processor == p) implies #[trigger] strs(names@).contains(p) by {
                    let j = choose|j: int| 0 <= j < i + 1 && (#[trigger] g.products[j]).processor == p;
                    if j < i {
                        assert(before.contains(p));
                    }
                }
            }
            i = i + 1;
        }
        let mut r: Vec<(String, Vec<String>)> = Vec::new();
        let mut e: usize = 0;
        while e < names.len()
            invariant
                n == self.products.len(),
                g == self@,
                graph_wf(g),
                g.products.len() == n,
                0 <= e <= names.len(),
                strictly_sorted(strs(names@), false),
                entry_keys(r@) == strs(names@).take(e as int),
                entry_sets(r@).len() == r@.len(),
                forall|t: int| 0 <= t < r@.len() ==> strictly_sorted(#[trigger] entry_sets(r@)[t], false),
                forall|t: int, q: Seq<char>|
                    0 <= t < r@.len() ==> (#[trigger] entry_sets(r@)[t].contains(q) <==> depends_on(g, entry_keys(r@)[t], q)),
            decreases names.len() - e,
        {
            let key: &String = &names[e];
            let mut set: Vec<String> = Vec::new();
            let mut j: usize = 0;
            while j < n
                invariant
                    n == self.products.len(),
                    g == self@,
                    graph_wf(g),
                    g.products.len() == n,
                    0 <= j <= n,
                    strictly_sorted(strs(set@), false),
                    forall|q: Seq<char>| #[trigger] strs(set@).contains(q) <==> key@ != q && exists|i: int, k: int|
                        0 <= i < j && 0 <= k < g.dependencies[i].len() && (#[trigger] g.products[i]).processor == key@
                            && g.products[#[trigger] g.dependencies[i][k] as int].processor == q,
                decreases n - j,
            {
                proof {
                    assert(g.products[j as int] == self.products@[j as int]@);
                }
                let ghost set_j = strs(set@);
                if self.products[j].processor == *key {
                    let ds: &[usize] = self.get_dependencies(j);
                    let mut k: usize = 0;
                    while k < ds.len()
                        invariant
                            n == self.products.len(),
                            g == self@,
                            graph_wf(g),
                            g.products.len() == n,
                            j < n,
                            g.products[j as int].processor == key@,
                            ds@ == g.dependencies[j as int],
                            0 <= k <= ds.len(),
                            strictly_sorted(strs(set@), false),
                            forall|q: Seq<char>| #[trigger] strs(set@).contains(q) <==> set_j.contains(q) || (key@ != q && exists|kk: int|
                                0 <= kk < k && g.products[#[trigger] ds@[kk] as int].processor == q),
                        decreases ds.len() - k,
                    {
                        let d: usize = ds[k];
                        proof {
                            assert(g.dependencies[j as int][k as int] == d);
                            assert(d < n);
                            assert(g.products[d as int] == self.products@[d as int]@);
                        }
                        let ghost before = strs(set@);
                        if self.products[d].processor != *key {
                            sorted_insert(&mut set, self.products[d].processor.clone(), false);
                        }
                        proof {
                            assert forall|q: Seq<char>| #[trigger] strs(set@).contains(q) <==> set_j.contains(q) || (key@ != q && exists|kk: int|
                                0 <= kk < k + 1 && g.products[#[trigger] ds@[kk] as int].processor == q) by {
                                if strs(set@).contains(q) && !before.contains(q) {
                                    assert(g.products[ds@[k as int] as int].processor == q);
                                }
                                if key@ != q && exists|kk: int| 0 <= kk < k + 1 && g.products[#[trigger] ds@[kk] as int].processor == q {
                                    let kk = choose|kk: int| 0 <= kk < k + 1 && g.products[#[trigger] ds@[kk] as int].processor == q;
                                    if kk == k {
                                        assert(strs(set@).contains(q));
                                    }
                                }
                            }
                        }
                        k = k + 1;
                    }
                    proof {
                        assert forall|q: Seq<char>| #[trigger] strs(set@).contains(q) <==> key@ != q && exists|i: int, k: int|
                            0 <= i < j + 1 && 0 <= k < g.dependencies[i].len() && (#[trigger] g.products[i]).processor == key@
                                && g.products[#[trigger] g.dependencies[i][k] as int].processor == q by {
                            if strs(set@).contains(q) && !set_j.contains(q) {
                                let kk = choose|kk: int| 0 <= kk < ds@.len() && g.products[#[trigger] ds@[kk] as int].processor == q;
                                assert(g.dependencies[j as int][kk] == ds@[kk]);
                            }
                            if key@ != q && exists|i: int, k: int|
                                0 <= i < j + 1 && 0 <= k < g.dependencies[i].len() && (#[trigger] g.products[i]).processor == key@
                                    && g.products[#[trigger] g.dependencies[i][k] as int].processor == q {
                                let (i, kk) = choose|i: int, k: int|
                                    0 <= i < j + 1 && 0 <= k < g.dependencies[i].len() && (#[trigger] g.products[i]).processor == key@
                                        && g.products[#[trigger] g.dependencies[i][k] as int].processor == q;
                                if i == j {
                                    assert(ds@[kk] == g.dependencies[i][kk]);
                                }
                            }
                        }
                    }
                } else {
                    proof {
                        assert forall|q: Seq<char>| #[trigger] strs(set@).contains(q) <==> key@ != q && exists|i: int, k: int|
                            0 <= i < j + 1 && 0 <= k < g.dependencies[i].len() && (#[trigger] g.products[i]).processor == key@
                                && g.products[#[trigger] g.dependencies[i][k] as int].processor == q by {
                            if key@ != q && exists|i: int, k: int|
                                0 <= i < j + 1 && 0 <= k < g.dependencies[i].len() && (#[trigger] g.products[i]).processor == key@
                                    && g.products[#[trigger] g.dependencies[i][k] as int].processor == q {
                                let (i, kk) = choose|i: int, k: int|
                                    0 <= i < j + 1 && 0 <= k < g.dependencies[i].len() && (#[trigger] g.products[i]).processor == key@
                                        && g.products[#[trigger] g.dependencies[i][k] as int].processor == q;
                                assert(i != j);
                            }
                        }
                    }
                }
                j = j + 1;
            }
            let ghost r0 = r@;
            r.push((key.clone(), set));
            proof {
                assert(entry_keys(r@) =~= entry_keys(r0).push(names@[e as int]@));
                assert(strs(names@).take(e + 1) =~= strs(names@).take(e as int).push(names@[e as int]@));
                assert(entry_sets(r@) =~= entry_sets(r0).push(strs(set@)));
            }
            e = e + 1;
        }
        proof {
            assert(strs(names@).take(names.len() as int) =~= strs(names@));
        }
        r
    }

    /// Whether input `k` of product `i` was used before it by a product of
    /// the same processor, and by which one first.
    fn first_user_exec(&self, i: usize, k: usize) -> (r: Option<usize>)
        requires
            i < self.products.len(),
            k < self.products@[i as int].inputs.len(),
        ensures
            r matches Some(j) ==> first_user(self@.products, i as int, k as int, 0) == Some(j as nat),
            r is None ==> first_user(self@.products, i as int, k as int, 0) is None,
    {
        let ghost ps = self@.products;
        proof {
            assert(ps[i as int] == self.products@[i as int]@);
        }
        let x: &String = &self.products[i].inputs[k];
        let mut j: usize = 0;
        while j <= i
            invariant
                0 <= j <= i + 1,
                i < self.products.len(),
                ps == self@.products,
                k < ps[i as int].inputs.len(),
                x@ == ps[i as int].inputs[k as int],
                first_user(ps, i as int, k as int, 0) == first_user(ps, i as int, k as int, j as int),
            decreases i + 1 - j,
        {
            proof {
                assert(ps[j as int] == self.products@[j as int]@);
            }
            if self.products[j].processor == self.products[i].processor {
                let hit: bool = if j < i {
                    strings_contain(&self.products[j].inputs, x.as_str())
                } else {
                    let inputs: &Vec<String> = &self.products[i].inputs;
                    let mut t: usize = 0;
                    let mut found: bool = false;
                    while t < k
                        invariant
                            0 <= t <= k,
                            i < ps.len(),
                            k < inputs.len(),
                            strs(inputs@) == ps[i as int].inputs,
                            x@ == ps[i as int].inputs[k as int],
                            found == ps[i as int].inputs.take(t as int).contains(x@),
                        decreases k - t,
                    {
                        proof {
                            assert(ps[i as int].inputs.take(t + 1) =~= ps[i as int].inputs.take(t as int).push(
                                inputs@[t as int]@,
                            ));
                        }
                        proof {
                            vstd::seq_lib::lemma_seq_contains_after_push(
                                ps[i as int].inputs.take(t as int),
                                inputs@[t as int]@,
                                x@,
                            );
                        }
                        if inputs[t] == *x {
                            found = true;
                        }
                        t = t + 1;
                    }
                    found
                };
                if hit {
                    return Some(j);
                }
            }
            j = j + 1;
        }
        None
    }

    /// Runs the enabled consistency checks and returns one message per
    /// problem: products without inputs; products whose id is not their
    /// index (the edge checks of the same step cannot fail, since every
    /// edge names a product); inputs repeated within one processor; and a
    /// dependency cycle.
    pub fn validate(&self, config: &GraphConfig) -> (r: Vec<String>)
        requires
            self.edges_wf(),
        ensures
            strs(r@) == validate_spec(
                self@,
                config.validate_empty_inputs,
                config.validate_dep_references,
                config.validate_duplicate_inputs,
                config.validate_early_cycles,
            ),
    {
        let ghost ps = self@.products;
        let n: usize = self.products.len();
        let mut errors: Vec<String> = Vec::new();
        if config.validate_empty_inputs {
            let mut i: usize = 0;
            while i < n
                invariant
                    0 <= i <= n,
                    n == self.products.len(),
                    ps == self@.products,
                    strs(errors@) == empty_input_msgs(ps, i as int),
                decreases n - i,
            {
                proof {
                    assert(ps[i as int] == self.products@[i as int]@);
                }
                if self.products[i].inputs.len() == 0 {
                    let mut m: String = String::from_str("[");
                    m.append(self.products[i].processor.as_str());
                    m.append("] product ");
                    let d: String = self.products[i].display(DisplayOptions::minimal());
                    m.append(d.as_str());
                    m.append(" has no input files");
                    errors.push(m);
                }
                i = i + 1;
            }
        }
        let ghost after1 = strs(errors@);
        if config.validate_dep_references {
            let mut i: usize = 0;
            while i < n
                invariant
                    0 <= i <= n,
                    n == self.products.len(),
                    ps == self@.products,
                    strs(errors@) == after1 + id_mismatch_msgs(ps, i as int),
                decreases n - i,
            {
                proof {
                    assert(ps[i as int] == self.products@[i as int]@);
                }
                let ghost e0 = strs(errors@);
                if self.products[i].id != i {
                    let mut m: String = String::from_str("[");
                    m.append(self.products[i].processor.as_str());
                    m.append("] product at index ");
                    m.append(usize_to_string(i).as_str());
                    m.append(" carries id ");
                    m.append(usize_to_string(self.products[i].id).as_str());
                    m.append(" — ids must equal indices after retain/rebuild");
                    proof {
                        assert(m@ == "["@ + ps[i as int].processor + "] product at index "@ + decimal(i as nat)
                            + " carries id "@ + decimal(ps[i as int].id) + " — ids must equal indices after retain/rebuild"@);
                    }
                    errors.push(m);
                    proof {
                        assert(strs(errors@) =~= e0.push(m@));
                    }
                }
                proof {
                    assert(strs(errors@) =~= after1 + id_mismatch_msgs(ps, i + 1));
                }
                i = i + 1;
            }
            if self.dependencies.len() != n {
                let mut m: String = String::from_str("dependency table has ");
                m.append(usize_to_string(self.dependencies.len()).as_str());
                m.append(" rows for ");
                m.append(usize_to_string(n).as_str());
                m.append(" products");
                errors.push(m);
            }
            let ghost after_ids = strs(errors@);
            let mut c: usize = 0;
            while c < n
                invariant
                    strs(errors@) == after_ids,
                    self.edges_wf(),
                    n == self.products.len(),
                    0 <= c <= n,
                decreases n - c,
            {
                let ds: &[usize] = self.get_dependencies(c);
                let mut k: usize = 0;
                while k < ds.len()
                    invariant
                        strs(errors@) == after_ids,
                        self.edges_wf(),
                        n == self.products.len(),
                        c < n,
                        0 <= k <= ds.len(),
                        ds@ == self@.dependencies[c as int],
                    decreases ds.len() - k,
                {
                    proof {
                        assert(self@.dependencies[c as int][k as int] == ds@[k as int]);
                    }
                    if ds[k] >= n {
                        let mut m: String = String::from_str("[");
                        m.append(self.products[c].processor.as_str());
                        m.append("] product ");
                        m.append(self.products[c].display(DisplayOptions::minimal()).as_str());
                        m.append(" has dependency on non-existent product id ");
                        m.append(usize_to_string(ds[k]).as_str());
                        errors.push(m);
                    }
                    k = k + 1;
                }
                c = c + 1;
            }
        }
        let ghost after2 = strs(errors@);
        if config.validate_duplicate_inputs {
            let mut i: usize = 0;
            while i < n
                invariant
                    0 <= i <= n,
                    n == self.products.len(),
                    ps == self@.products,
                    strs(errors@) == after2 + dup_msgs(ps, i as int),
                decreases n - i,
            {
                proof {
                    assert(ps[i as int] == self.products@[i as int]@);
                }
                let ghost before_i = strs(errors@);
                let m: usize = self.products[i].inputs.len();
                let mut k: usize = 0;
                while k < m
                    invariant
                        0 <= k <= m,
                        i < n,
                        n == self.products.len(),
                        ps == self@.products,
                        m == ps[i as int].inputs.len(),
                        strs(errors@) == before_i + dup_msgs_in(ps, i as int, k as int),
                    decreases m - k,
                {
                    proof {
                        assert(ps[i as int] == self.products@[i as int]@);
                    }
                    match self.first_user_exec(i, k) {
                        Some(first) => {
                            let mut msg: String = String::from_str("[");
                            msg.append(self.products[i].processor.as_str());
                            msg.append("] input ");
                            msg.append(self.products[i].inputs[k].as_str());
                            msg.append(" appears in both product ");
                            msg.append(usize_to_string(first).as_str());
                            msg.append(" and product ");
                            msg.append(usize_to_string(self.products[i].id).as_str());
                            let ghost e0 = strs(errors@);
                            errors.push(msg);
                            proof {
                                assert(strs(errors@) =~= e0.push(dup_msg(ps[i as int], k as int, first as nat)));
                            }
                        },
                        None => {},
                    }
                    k = k + 1;
                }
                proof {
                    assert(strs(errors@) =~= after2 + dup_msgs(ps, i + 1));
                }
                i = i + 1;
            }
        }
        let ghost after3 = strs(errors@);
        if config.validate_early_cycles {
            match self.topological_sort() {
                Ok(_) => {},
                Err(e) => {
                    errors.push(e.to_string());
                },
            }
        }
        proof {
            assert(strs(errors@) =~= validate_spec(
                self@,
                config.validate_empty_inputs,
                config.validate_dep_references,
                config.validate_duplicate_inputs,
                config.validate_early_cycles,
            ));
        }
        errors
    }

    /// Keep only the products that have an input matching one of the glob
    /// `patterns`, together with every product upstream of them (their
    /// producers, transitively); the graph is rebuilt from the survivors.
    /// With no patterns the graph is unchanged. A pattern that does not
    /// compile is an error naming it, and the graph is unchanged.
    pub fn filter_by_targets(&mut self, patterns: &Vec<String>) -> (r: Result<(), ErrorChain>)
        requires
            old(self).wf(),
        ensures
            final(self).wf(),
            r is Err <==> first_bad_pattern(strs(patterns@), 0) is Some,
            r matches Err(e) ==> e.links@.len() == 2 && e.links@[0] is Message && e.links@[1] is Message
                && e.links@[0]->Message_0@ == "Invalid glob pattern: "@ + patterns@[first_bad_pattern(
                strs(patterns@),
                0,
            )->0 as int]@ && Some(e.links@[1]->Message_0@) == glob_parse_error(
                patterns@[first_bad_pattern(strs(patterns@), 0)->0 as int]@,
            ),
            r is Err ==> final(self)@ == old(self)@,
            r is Ok && patterns.len() == 0 ==> final(self)@ == old(self)@,
            r is Ok && patterns.len() > 0 ==> exists|keep: Seq<bool>|
                keep.len() == old(self)@.products.len() && (forall|i: int|
                    0 <= i < keep.len() ==> (#[trigger] keep[i] <==> upstream_of_targets(
                        old(self)@,
                        strs(patterns@),
                        i,
                    ))) && final(self)@ == rebuilt(old(self)@.products, keep),
    {
        let ghost g = self@;
        let ghost pats = strs(patterns@);
        let mut compiled: Vec<GlobPattern> = Vec::new();
        let mut j: usize = 0;
        while j < patterns.len()
            invariant
                0 <= j <= patterns.len(),
                self@ == g,
                self.wf(),
                pats == strs(patterns@),
                compiled.len() == j,
                forall|t: int| 0 <= t < j ==> (#[trigger] compiled@[t])@ == pats[t],
                first_bad_pattern(pats, 0) == first_bad_pattern(pats, j as int),
            decreases patterns.len() - j,
        {
            proof {
                assert(pats[j as int] == patterns@[j as int]@);
            }
            match compile_glob(patterns[j].as_str()) {
                Ok(c) => {
                    compiled.push(c);
                },
                Err(msg) => {
                    let mut head: String = String::from_str("Invalid glob pattern: ");
                    head.append(patterns[j].as_str());
                    let mut links: Vec<ErrorLink> = Vec::new();
                    links.push(ErrorLink::Message(head));
                    links.push(ErrorLink::Message(msg));
                    return Err(ErrorChain { links });
                },
            }
            j = j + 1;
        }
        if compiled.len() == 0 {
            return Ok(());
        }
        proof {
            assert(glob_sources(compiled@) =~= pats);
        }
        let n: usize = self.products.len();
        let ghost deps = g.dependencies;
        let mut keep: Vec<bool> = Vec::new();
        let mut queue: Vec<usize> = Vec::new();
        let mut i: usize = 0;
        while i < n
            invariant
                n == self.products.len(),
                self@ == g,
                self.wf(),
                0 <= i <= n,
                pats == strs(patterns@),
                glob_sources(compiled@) == pats,
                keep.len() == i,
                forall|u: int| 0 <= u < i ==> (#[trigger] keep@[u] <==> matches_target(g.products, pats, u)),
                forall|t: int| 0 <= t < queue.len() ==> (#[trigger] queue@[t]) < i && keep@[queue@[t] as int],
                forall|u: int| 0 <= u < i && #[trigger] keep@[u] ==> queue@.contains(u as usize),
                queue.len() + num_unplaced(keep@) == i,
            decreases n - i,
        {
            let ghost keep0 = keep@;
            let ghost queue0 = queue@;
            let hit: bool = self.input_matches(i, &compiled);
            keep.push(hit);
            if hit {
                queue.push(i);
            }
            proof {
                assert(keep@.drop_last() =~= keep0);
                assert forall|u: int| 0 <= u < i + 1 && #[trigger] keep@[u] implies queue@.contains(u as usize) by {
                    if hit {
                        vstd::seq_lib::lemma_seq_contains_after_push(queue0, i, u as usize);
                    }
                }
            }
            i = i + 1;
        }
        proof {
            assert forall|u: int| 0 <= u < n && #[trigger] keep@[u] implies upstream_of_targets(g, pats, u) by {
                let path = seq![u];
                assert(is_dep_path(deps, path));
                assert(path.last() == u);
            }
        }
        let mut head: usize = 0;
        while head < queue.len()
            invariant
                n == self.products.len(),
                self@ == g,
                deps == g.dependencies,
                deps.len() == n,
                self.wf(),
                pats == strs(patterns@),
                keep.len() == n,
                head <= queue.len(),
                queue.len() + num_unplaced(keep@) == n,
                forall|u: int| 0 <= u < n && matches_target(g.products, pats, u) ==> #[trigger] keep@[u],
                forall|u: int| 0 <= u < n && #[trigger] keep@[u] ==> upstream_of_targets(g, pats, u),
                forall|t: int| 0 <= t < queue.len() ==> (#[trigger] queue@[t]) < n && keep@[queue@[t] as int],
                forall|u: int| 0 <= u < n && #[trigger] keep@[u] ==> queue@.contains(u as usize),
                forall|t: int, k: int|
                    0 <= t < head && 0 <= k < deps[queue@[t] as int].len() ==> keep@[#[trigger] deps[queue@[t] as int][k] as int],
            decreases n - head,
        {
            let id: usize = queue[head];
            let ds: &[usize] = self.get_dependencies(id);
            let mut k: usize = 0;
            while k < ds.len()
                invariant
                    n == self.products.len(),
                    self@ == g,
                    deps == g.dependencies,
                    deps.len() == n,
                    self.wf(),
                    pats == strs(patterns@),
                    keep.len() == n,
                    head < queue.len(),
                    id == queue@[head as int],
                    id < n,
                    ds@ == deps[id as int],
                    0 <= k <= ds.len(),
                    queue.len() + num_unplaced(keep@) == n,
                    forall|u: int| 0 <= u < n && matches_target(g.products, pats, u) ==> #[trigger] keep@[u],
                    forall|u: int| 0 <= u < n && #[trigger] keep@[u] ==> upstream_of_targets(g, pats, u),
                    forall|t: int| 0 <= t < queue.len() ==> (#[trigger] queue@[t]) < n && keep@[queue@[t] as int],
                    forall|u: int| 0 <= u < n && #[trigger] keep@[u] ==> queue@.contains(u as usize),
                    forall|t: int, kk: int|
                        0 <= t < head && 0 <= kk < deps[queue@[t] as int].len() ==> keep@[#[trigger] deps[queue@[t] as int][kk] as int],
                    forall|t: int| 0 <= t < k ==> keep@[#[trigger] ds@[t] as int],
                decreases ds.len() - k,
            {
                let d: usize = ds[k];
                if !keep[d] {
                    let ghost keep0 = keep@;
                    let ghost queue0 = queue@;
                    proof {
                        assert(keep0[id as int]);
                        let pth = choose|path: Seq<int>|
                            is_dep_path(g.dependencies, path) && matches_target(g.products, pats, path[0])
                                && path.last() == id as int;
                        let p2 = pth.push(d as int);
                        assert(deps[id as int].contains(d)) by {
                            assert(deps[id as int][k as int] == d);
                        }
                        assert(is_dep_path(deps, p2)) by {
                            assert forall|t: int| 0 < t < p2.len() implies deps[p2[t - 1]].contains(#[trigger] p2[t] as usize) by {
                                if t < pth.len() {
                                    assert(p2[t - 1] == pth[t - 1] && p2[t] == pth[t]);
                                } else {
                                    assert(p2[t - 1] == id as int);
                                }
                            }
                        }
                        assert(p2[0] == pth[0]);
                        assert(p2.last() == d as int);
                        lemma_num_unplaced_place(keep0, d as int);
                    }
                    keep.set(d, true);
                    queue.push(d);
                    proof {
                        assert(keep@ == keep0.update(d as int, true));
                        assert forall|u: int| 0 <= u < n && #[trigger] keep@[u] implies queue@.contains(u as usize) by {
                            vstd::seq_lib::lemma_seq_contains_after_push(queue0, d, u as usize);
                        }
                    }
                }
                k = k + 1;
            }
            head = head + 1;
        }
        proof {
            assert forall|uu: int, kk: int|
                0 <= uu < deps.len() && keep@[uu] && 0 <= kk < deps[uu].len() implies keep@[#[trigger] deps[uu][kk] as int] by {
                assert(queue@.contains(uu as usize));
                let t = choose|t: int| 0 <= t < queue@.len() && queue@[t] == uu as usize;
                assert(deps[queue@[t] as int][kk] == deps[uu][kk]);
            }
            assert forall|u: int| 0 <= u < n implies (#[trigger] keep@[u] <==> upstream_of_targets(g, pats, u)) by {
                if upstream_of_targets(g, pats, u) {
                    let pth = choose|path: Seq<int>|
                        is_dep_path(g.dependencies, path) && matches_target(g.products, pats, path[0])
                            && path.last() == u;
                    lemma_closed_contains_path(deps, keep@, pth, pth.len() - 1);
                }
            }
        }
        self.rebuild_retaining(&keep);
        Ok(())
    }

    /// Whether some input of product `i` matches some compiled pattern.
    fn input_matches(&self, i: usize, compiled: &Vec<GlobPattern>) -> (r: bool)
        requires
            i < self.products.len(),
        ensures
            r == matches_target(self@.products, glob_sources(compiled@), i as int),
    {
        let ghost ps = self@.products;
        let ghost pats = glob_sources(compiled@);
        proof {
            assert(ps[i as int] == self.products@[i as int]@);
        }
        let inputs: &Vec<String> = &self.products[i].inputs;
        let mut k: usize = 0;
        while k < inputs.len()
            invariant
                0 <= k <= inputs.len(),
                i < ps.len(),
                ps == self@.products,
                strs(inputs@) == ps[i as int].inputs,
                pats == glob_sources(compiled@),
                forall|kk: int, jj: int|
                    0 <= kk < k && 0 <= jj < pats.len() ==> !glob_matches(#[trigger] pats[jj], #[trigger] ps[i as int].inputs[kk]),
            decreases inputs.len() - k,
        {
            let mut j: usize = 0;
            while j < compiled.len()
                invariant
                    0 <= k < inputs.len(),
                    i < ps.len(),
                    ps == self@.products,
                    0 <= j <= compiled.len(),
                    strs(inputs@) == ps[i as int].inputs,
                    pats == glob_sources(compiled@),
                    forall|kk: int, jj: int|
                        0 <= kk < k && 0 <= jj < pats.len() ==> !glob_matches(#[trigger] pats[jj], #[trigger] ps[i as int].inputs[kk]),
                    forall|jj: int| 0 <= jj < j ==> !glob_matches(#[trigger] pats[jj], ps[i as int].inputs[k as int]),
                decreases compiled.len() - j,
            {
                proof {
                    assert(ps[i as int].inputs[k as int] == inputs@[k as int]@);
                    assert(pats[j as int] == compiled@[j as int]@);
                }
                if glob_match(&compiled[j], inputs[k].as_str()) {
                    proof {
                        assert(glob_matches(pats[j as int], ps[i as int].inputs[k as int]));
                        assert(matches_target(ps, pats, i as int));
                    }
                    return true;
                }
                j = j + 1;
            }
            k = k + 1;
        }
        false
    }

    /// The product that declares `path` as an output.
    fn find_owner(&self, path: &str) -> (r: Option<usize>)
        requires
            graph_wf(self@),
        ensures
            r matches Some(i) ==> owner_of(self@.products, path@) == Some(i as nat),
            r is None ==> owner_of(self@.products, path@) is None,
    {
        let ghost ps = self@.products;
        let mut i: usize = 0;
        while i < self.products.len()
            invariant
                0 <= i <= self.products.len(),
                ps == self@.products,
                ps.len() == self.products.len(),
                unique_owners(ps),
                forall|j: int| 0 <= j < i ==> !(#[trigger] ps[j].outputs.contains(path@)),
            decreases self.products.len() - i,
        {
            if strings_contain(&self.products[i].outputs, path) {
                proof {
                    assert(ps[i as int] == self.products@[i as int]@);
                    assert(ps[i as int].outputs.contains(path@));
                    let j = choose|j: int| 0 <= j < ps.len() && #[trigger] ps[j].outputs.contains(path@);
                    assert(ps[j].outputs.contains(path@));
                    assert(unique_owners(ps));
                    assert(j == i);
                }
                return Some(i);
            }
            proof {
                assert(ps[i as int] == self.products@[i as int]@);
            }
            i = i + 1;
        }
        None
    }
}

} // verus!
