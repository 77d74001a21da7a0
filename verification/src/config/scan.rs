//! What the file walk needs from the configuration: a processor's scan
//! fields read from its TOML, and the output directories the walk leaves
//! out (with the source directories that override that).

use vstd::prelude::*;
use crate::config::instance::{ProcessorInstance, config_field, instance_wf, is_text};
use crate::config::processor_configs::StandardConfig;
use crate::config::toml_value::{TomlValue, table_get, table_sorted, table_view};
use crate::config::validation::string_items;
use crate::display::{path_starts_with, starts_with_path};
use crate::lexical::{sorted_insert, strictly_sorted};
use crate::text::{str_views, strs};

verus! {

/// The array `key` of a table value.
pub open spec fn array_field(v: TomlValue, key: Seq<char>) -> Option<Seq<TomlValue>> {
    match v {
        TomlValue::Table(e) => if table_view(e@).contains_key(key) {
            match table_view(e@)[key] {
                TomlValue::Array(items) => Some(items@),
                _ => None,
            }
        } else {
            None
        },
        _ => None,
    }
}

/// A scan field: the strings of the array `key`, or the defaults.
pub open spec fn scan_field(v: TomlValue, key: Seq<char>, defaults: Seq<Seq<char>>) -> Seq<Seq<char>> {
    match array_field(v, key) {
        Some(items) => string_items(items),
        None => defaults,
    }
}

/// The strings of an array, in order.
fn strings_of(items: &Vec<TomlValue>) -> (r: Vec<String>)
    ensures
        strs(r@) == string_items(items@),
{
    let mut r: Vec<String> = Vec::new();
    let mut i: usize = 0;
    while i < items.len()
        invariant
            0 <= i <= items.len(),
            strs(r@) == string_items(items@.take(i as int)),
        decreases items.len() - i,
    {
        proof {
            let t = items@.take(i + 1);
            assert(t.drop_last() =~= items@.take(i as int));
            assert(t.last() == items@[i as int]);
        }
        let ghost before = strs(r@);
        match &items[i] {
            TomlValue::String(x) => {
                r.push(x.clone());
                proof {
                    assert(strs(r@) =~= before.push(x@));
                }
            },
            _ => {
                proof {
                    assert(strs(r@) =~= before + Seq::<Seq<char>>::empty());
                }
            },
        }
        i = i + 1;
    }
    proof {
        assert(items@.take(items@.len() as int) =~= items@);
    }
    r
}

/// The given names, as owned strings.
fn owned(v: &[&str]) -> (r: Vec<String>)
    ensures
        strs(r@) == str_views(v@),
{
    let mut r: Vec<String> = Vec::new();
    let mut i: usize = 0;
    while i < v.len()
        invariant
            0 <= i <= v.len(),
            strs(r@) == str_views(v@).take(i as int),
        decreases v.len() - i,
    {
        let ghost before = strs(r@);
        r.push(String::from_str(v[i]));
        proof {
            assert(strs(r@) =~= before.push(v@[i as int]@));
            assert(str_views(v@).take(i + 1) =~= str_views(v@).take(i as int).push(v@[i as int]@));
        }
        i = i + 1;
    }
    proof {
        assert(str_views(v@).take(v@.len() as int) =~= str_views(v@));
    }
    r
}

/// A scan field read from the table, or the defaults.
fn read_scan_field(value: &TomlValue, key: &str, defaults: &[&str]) -> (r: Vec<String>)
    requires
        value matches TomlValue::Table(e) ==> table_sorted(e@),
    ensures
        strs(r@) == scan_field(*value, key@, str_views(defaults@)),
{
    match value {
        TomlValue::Table(e) => match table_get(e, key) {
            Some(TomlValue::Array(items)) => strings_of(items),
            _ => owned(defaults),
        },
        _ => owned(defaults),
    }
}

/// A processor's standard config read from its TOML: the scan fields from
/// the arrays it sets (strings only), the given defaults for directories,
/// extensions and excluded directories it does not set, and empty lists
/// for the other scan fields; everything else at its default.
pub fn standard_config_from_toml(
    value: &TomlValue,
    default_src_dirs: &[&str],
    default_src_extensions: &[&str],
    default_exclude_dirs: &[&str],
) -> (r: StandardConfig)
    requires
        value matches TomlValue::Table(e) ==> table_sorted(e@),
    ensures
        r.command@.len() == 0 && r.output_dir@.len() == 0,
        r.formats@.len() == 0 && r.args@.len() == 0 && r.dep_inputs@.len() == 0 && r.dep_auto@.len() == 0 && r.required_tools@.len() == 0,
        r.batch && r.enabled && r.max_jobs is None,
        r.src_dirs is Some && strs(r.src_dirs->0@) == scan_field(*value, "src_dirs"@, str_views(default_src_dirs@)),
        r.src_extensions is Some && strs(r.src_extensions->0@) == scan_field(*value, "src_extensions"@, str_views(default_src_extensions@)),
        r.src_exclude_dirs is Some && strs(r.src_exclude_dirs->0@) == scan_field(*value, "src_exclude_dirs"@, str_views(default_exclude_dirs@)),
        r.src_exclude_files is Some && strs(r.src_exclude_files->0@) == scan_field(*value, "src_exclude_files"@, Seq::empty()),
        r.src_exclude_paths is Some && strs(r.src_exclude_paths->0@) == scan_field(*value, "src_exclude_paths"@, Seq::empty()),
        r.src_files is Some && strs(r.src_files->0@) == scan_field(*value, "src_files"@, Seq::empty()),
{
    let none: &[&str] = &[];
    proof {
        assert(str_views(none@) =~= Seq::<Seq<char>>::empty());
    }
    let mut cfg = StandardConfig::default();
    cfg.src_dirs = Some(read_scan_field(value, "src_dirs", default_src_dirs));
    cfg.src_extensions = Some(read_scan_field(value, "src_extensions", default_src_extensions));
    cfg.src_exclude_dirs = Some(read_scan_field(value, "src_exclude_dirs", default_exclude_dirs));
    cfg.src_exclude_files = Some(read_scan_field(value, "src_exclude_files", none));
    cfg.src_exclude_paths = Some(read_scan_field(value, "src_exclude_paths", none));
    cfg.src_files = Some(read_scan_field(value, "src_files", none));
    cfg
}

/// `s` without its trailing slashes.
pub open spec fn trim_slashes(s: Seq<char>) -> Seq<char>
    decreases s.len(),
{
    if s.len() > 0 && s.last() == '/' {
        trim_slashes(s.drop_last())
    } else {
        s
    }
}

/// A directory as the walk compares it: without trailing slashes; none
/// when that leaves nothing or `.` (output in place at the project root,
/// which cannot be left out of the walk).
pub open spec fn normalized_dir(s: Seq<char>) -> Option<Seq<char>> {
    let t = trim_slashes(s);
    if t.len() == 0 || t == "."@ {
        None
    } else {
        Some(t)
    }
}

/// The text of a string field of an instance, as a list of at most one.
pub open spec fn text_field(inst: ProcessorInstance, field: Seq<char>) -> Seq<Seq<char>> {
    match config_field(inst, field) {
        Some(TomlValue::String(x)) => seq![x@],
        _ => Seq::empty(),
    }
}

/// The strings of an array field of an instance.
pub open spec fn list_field(inst: ProcessorInstance, field: Seq<char>) -> Seq<Seq<char>> {
    match config_field(inst, field) {
        Some(TomlValue::Array(items)) => string_items(items@),
        _ => Seq::empty(),
    }
}

/// An instance's output directories: `output_dir`, `output`, then the
/// strings of `output_dirs`.
pub open spec fn output_candidates(inst: ProcessorInstance) -> Seq<Seq<char>> {
    text_field(inst, "output_dir"@) + text_field(inst, "output"@) + list_field(inst, "output_dirs"@)
}

/// `d` is a directory the walk leaves out: the global output directory or
/// an output directory of some instance, normalized.
pub open spec fn excluded_dir(output_dir: Seq<char>, insts: Seq<ProcessorInstance>, d: Seq<char>) -> bool {
    normalized_dir(output_dir) == Some(d) || exists|i: int, j: int|
        0 <= i < insts.len() && 0 <= j < output_candidates(insts[i]).len() && normalized_dir(#[trigger] output_candidates(insts[i])[j])
            == Some(d)
}

/// `d` is a source directory, normalized, of some instance that lies
/// under a left-out directory: it is walked anyway.
pub open spec fn forced_dir(output_dir: Seq<char>, insts: Seq<ProcessorInstance>, d: Seq<char>) -> bool {
    (exists|i: int, j: int|
        0 <= i < insts.len() && 0 <= j < list_field(insts[i], "src_dirs"@).len() && normalized_dir(
            #[trigger] list_field(insts[i], "src_dirs"@)[j],
        ) == Some(d)) && exists|root: Seq<char>| #[trigger] excluded_dir(output_dir, insts, root) && path_starts_with(d, root)
}

/// The directory as the walk compares it.
fn normalize(dir: &str) -> (r: Option<String>)
    ensures
        r matches Some(t) ==> normalized_dir(dir@) == Some(t@),
        r is None ==> normalized_dir(dir@) is None,
{
    let chars = crate::text::chars_of(dir);
    let mut n: usize = chars.len();
    proof {
        assert(chars@.take(n as int) =~= dir@);
    }
    while n > 0 && chars[n - 1] == '/'
        invariant
            0 <= n <= chars.len(),
            chars@ == dir@,
            trim_slashes(dir@) == trim_slashes(chars@.take(n as int)),
        decreases n,
    {
        proof {
            assert(chars@.take(n as int).drop_last() =~= chars@.take(n - 1));
        }
        n = n - 1;
    }
    let t: String = crate::text::string_between(&chars, 0, n);
    proof {
        assert(t@ =~= chars@.take(n as int));
        assert(trim_slashes(t@) == t@);
        reveal_strlit(".");
    }
    if n == 0 || crate::text::str_eq(t.as_str(), ".") {
        return None;
    }
    Some(t)
}

/// The string of a field, when it is one.
fn text_of(inst: &ProcessorInstance, field: &str) -> (r: Vec<String>)
    requires
        instance_wf(*inst),
    ensures
        strs(r@) == text_field(*inst, field@),
{
    let mut r: Vec<String> = Vec::new();
    match &inst.config_toml {
        TomlValue::Table(e) => match table_get(e, field) {
            Some(TomlValue::String(x)) => {
                r.push(x.clone());
            },
            _ => {},
        },
        _ => {},
    }
    proof {
        assert(strs(r@) =~= text_field(*inst, field@));
    }
    r
}

/// The strings of an array field.
fn list_of(inst: &ProcessorInstance, field: &str) -> (r: Vec<String>)
    requires
        instance_wf(*inst),
    ensures
        strs(r@) == list_field(*inst, field@),
{
    match &inst.config_toml {
        TomlValue::Table(e) => match table_get(e, field) {
            Some(TomlValue::Array(items)) => strings_of(items),
            _ => {
                let r: Vec<String> = Vec::new();
                proof {
                    assert(strs(r@) =~= list_field(*inst, field@));
                }
                r
            },
        },
        _ => {
            let r: Vec<String> = Vec::new();
            proof {
                assert(strs(r@) =~= list_field(*inst, field@));
            }
            r
        },
    }
}

/// Adds the normalized form of each candidate to a sorted list without
/// repeats.
fn insert_normalized(acc: &mut Vec<String>, cands: &Vec<String>)
    requires
        strictly_sorted(strs(old(acc)@), false),
    ensures
        strictly_sorted(strs(final(acc)@), false),
        forall|d: Seq<char>| #[trigger] strs(final(acc)@).contains(d) <==> strs(old(acc)@).contains(d) || exists|j: int|
            0 <= j < cands@.len() && normalized_dir(#[trigger] strs(cands@)[j]) == Some(d),
{
    let ghost a0 = strs(acc@);
    let mut j: usize = 0;
    while j < cands.len()
        invariant
            0 <= j <= cands.len(),
            strictly_sorted(strs(acc@), false),
            forall|d: Seq<char>| #[trigger] strs(acc@).contains(d) <==> a0.contains(d) || exists|q: int|
                0 <= q < j && normalized_dir(#[trigger] strs(cands@)[q]) == Some(d),
        decreases cands.len() - j,
    {
        let n: Option<String> = normalize(cands[j].as_str());
        proof {
            assert(strs(cands@)[j as int] == cands@[j as int]@);
        }
        match n {
            Some(t) => {
                sorted_insert(acc, t, false);
            },
            None => {},
        }
        proof {
            assert forall|d: Seq<char>| #[trigger] strs(acc@).contains(d) <==> a0.contains(d) || exists|q: int|
                0 <= q < j + 1 && normalized_dir(#[trigger] strs(cands@)[q]) == Some(d) by {
                if exists|q: int| 0 <= q < j + 1 && normalized_dir(#[trigger] strs(cands@)[q]) == Some(d) {
                    let q = choose|q: int| 0 <= q < j + 1 && normalized_dir(#[trigger] strs(cands@)[q]) == Some(d);
                    if q < j {
                        assert(exists|q2: int| 0 <= q2 < j && normalized_dir(#[trigger] strs(cands@)[q2]) == Some(d));
                    }
                }
                if exists|q: int| 0 <= q < j && normalized_dir(#[trigger] strs(cands@)[q]) == Some(d) {
                    let q = choose|q: int| 0 <= q < j && normalized_dir(#[trigger] strs(cands@)[q]) == Some(d);
                    assert(0 <= q < j + 1);
                }
            }
        }
        j = j + 1;
    }
}

/// The directories the file walk leaves out: the global output directory
/// and every instance's `output_dir`, `output` and `output_dirs`; and the
/// source directories walked anyway because they lie under one of those
/// (naming such a directory in `src_dirs` opts into scanning generated
/// files). Each list is normalized (no trailing slash; empty and `.`
/// dropped), sorted, and without repeats.
pub fn file_index_walk_dirs(output_dir: &str, instances: &Vec<ProcessorInstance>) -> (r: (Vec<String>, Vec<String>))
    requires
        forall|i: int| 0 <= i < instances@.len() ==> #[trigger] instance_wf(instances@[i]),
    ensures
        strictly_sorted(strs(r.0@), false),
        forall|d: Seq<char>| #[trigger] strs(r.0@).contains(d) <==> excluded_dir(output_dir@, instances@, d),
        strictly_sorted(strs(r.1@), false),
        forall|d: Seq<char>| #[trigger] strs(r.1@).contains(d) <==> forced_dir(output_dir@, instances@, d),
{
    let mut exclude: Vec<String> = Vec::new();
    let mut first: Vec<String> = Vec::new();
    first.push(String::from_str(output_dir));
    proof {
        assert(strictly_sorted(strs(exclude@), false));
        assert(strs(first@) =~= seq![output_dir@]);
    }
    insert_normalized(&mut exclude, &first);
    proof {
        assert forall|d: Seq<char>| #[trigger] strs(exclude@).contains(d) <==> normalized_dir(output_dir@) == Some(d) by {
            if normalized_dir(output_dir@) == Some(d) {
                assert(normalized_dir(strs(first@)[0]) == Some(d));
            }
        }
    }
    let mut i: usize = 0;
    while i < instances.len()
        invariant
            0 <= i <= instances.len(),
            forall|q: int| 0 <= q < instances@.len() ==> #[trigger] instance_wf(instances@[q]),
            strictly_sorted(strs(exclude@), false),
            forall|d: Seq<char>| #[trigger] strs(exclude@).contains(d) <==> normalized_dir(output_dir@) == Some(d) || exists|a: int, b: int|
                0 <= a < i && 0 <= b < output_candidates(instances@[a]).len() && normalized_dir(
                    #[trigger] output_candidates(instances@[a])[b],
                ) == Some(d),
        decreases instances.len() - i,
    {
        proof {
            assert(instance_wf(instances@[i as int]));
        }
        let inst: &ProcessorInstance = &instances[i];
        let mut cands: Vec<String> = text_of(inst, "output_dir");
        let mut more: Vec<String> = text_of(inst, "output");
        cands.append(&mut more);
        let mut dirs: Vec<String> = list_of(inst, "output_dirs");
        cands.append(&mut dirs);
        proof {
            assert(strs(cands@) =~= output_candidates(instances@[i as int]));
        }
        let ghost before = strs(exclude@);
        insert_normalized(&mut exclude, &cands);
        proof {
            let oc = output_candidates(instances@[i as int]);
            assert forall|d: Seq<char>| #[trigger] strs(exclude@).contains(d) <==> normalized_dir(output_dir@) == Some(d) || exists|a: int, b: int|
                0 <= a < i + 1 && 0 <= b < output_candidates(instances@[a]).len() && normalized_dir(
                    #[trigger] output_candidates(instances@[a])[b],
                ) == Some(d) by {
                if exists|a: int, b: int|
                    0 <= a < i + 1 && 0 <= b < output_candidates(instances@[a]).len() && normalized_dir(
                        #[trigger] output_candidates(instances@[a])[b],
                    ) == Some(d) {
                    let (a, b) = choose|a: int, b: int|
                        0 <= a < i + 1 && 0 <= b < output_candidates(instances@[a]).len() && normalized_dir(
                            #[trigger] output_candidates(instances@[a])[b],
                        ) == Some(d);
                    if a == i {
                        assert(normalized_dir(strs(cands@)[b]) == Some(d));
                    } else {
                        assert(before.contains(d));
                    }
                }
                if exists|j: int| 0 <= j < cands@.len() && normalized_dir(#[trigger] strs(cands@)[j]) == Some(d) {
                    let j = choose|j: int| 0 <= j < cands@.len() && normalized_dir(#[trigger] strs(cands@)[j]) == Some(d);
                    assert(normalized_dir(output_candidates(instances@[i as int])[j]) == Some(d));
                }
                if before.contains(d) && normalized_dir(output_dir@) != Some(d) {
                    let (a, b) = choose|a: int, b: int|
                        0 <= a < i && 0 <= b < output_candidates(instances@[a]).len() && normalized_dir(
                            #[trigger] output_candidates(instances@[a])[b],
                        ) == Some(d);
                    assert(0 <= a < i + 1);
                }
            }
        }
        i = i + 1;
    }
    proof {
        assert forall|d: Seq<char>| #[trigger] strs(exclude@).contains(d) <==> excluded_dir(output_dir@, instances@, d) by {}
    }
    let mut force: Vec<String> = Vec::new();
    proof {
        assert(strictly_sorted(strs(force@), false));
    }
    let mut k: usize = 0;
    while k < instances.len()
        invariant
            0 <= k <= instances.len(),
            forall|q: int| 0 <= q < instances@.len() ==> #[trigger] instance_wf(instances@[q]),
            forall|d: Seq<char>| #[trigger] strs(exclude@).contains(d) <==> excluded_dir(output_dir@, instances@, d),
            strictly_sorted(strs(force@), false),
            forall|d: Seq<char>| #[trigger] strs(force@).contains(d) <==> (exists|a: int, b: int|
                0 <= a < k && 0 <= b < list_field(instances@[a], "src_dirs"@).len() && normalized_dir(
                    #[trigger] list_field(instances@[a], "src_dirs"@)[b],
                ) == Some(d)) && exists|root: Seq<char>| #[trigger] excluded_dir(output_dir@, instances@, root) && path_starts_with(d, root),
        decreases instances.len() - k,
    {
        proof {
            assert(instance_wf(instances@[k as int]));
        }
        let src: Vec<String> = list_of(&instances[k], "src_dirs");
        let ghost before = strs(force@);
        let mut j: usize = 0;
        while j < src.len()
            invariant
                0 <= j <= src.len(),
                forall|d: Seq<char>| #[trigger] strs(exclude@).contains(d) <==> excluded_dir(output_dir@, instances@, d),
                strictly_sorted(strs(force@), false),
                forall|d: Seq<char>| #[trigger] strs(force@).contains(d) <==> before.contains(d) || ((exists|b: int|
                    0 <= b < j && normalized_dir(#[trigger] strs(src@)[b]) == Some(d)) && exists|root: Seq<char>|
                    #[trigger] excluded_dir(output_dir@, instances@, root) && path_starts_with(d, root)),
            decreases src.len() - j,
        {
            proof {
                assert(strs(src@)[j as int] == src@[j as int]@);
            }
            let ghost f0 = strs(force@);
            match normalize(src[j].as_str()) {
                Some(dir) => {
                    let mut under: bool = false;
                    let mut q: usize = 0;
                    while q < exclude.len() && !under
                        invariant
                            0 <= q <= exclude.len(),
                            under ==> exists|root: Seq<char>| strs(exclude@).contains(root) && path_starts_with(dir@, root),
                            !under ==> forall|t: int| 0 <= t < q ==> !path_starts_with(dir@, #[trigger] strs(exclude@)[t]),
                        decreases exclude.len() - q,
                    {
                        if starts_with_path(dir.as_str(), exclude[q].as_str()) {
                            proof {
                                assert(strs(exclude@)[q as int] == exclude@[q as int]@);
                                assert(strs(exclude@).contains(exclude@[q as int]@));
                            }
                            under = true;
                        }
                        q = q + 1;
                    }
                    let ghost dv = dir@;
                    proof {
                        if under {
                            let root = choose|root: Seq<char>| strs(exclude@).contains(root) && path_starts_with(dv, root);
                            assert(excluded_dir(output_dir@, instances@, root));
                        } else {
                            assert forall|root: Seq<char>| #[trigger] excluded_dir(output_dir@, instances@, root) implies !path_starts_with(dv, root) by {
                                assert(strs(exclude@).contains(root));
                                let t = choose|t: int| 0 <= t < strs(exclude@).len() && strs(exclude@)[t] == root;
                            }
                        }
                    }
                    if under {
                        sorted_insert(&mut force, dir, false);
                    }
                    proof {
                        assert forall|d: Seq<char>| #[trigger] strs(force@).contains(d) <==> before.contains(d) || ((exists|b: int|
                            0 <= b < j + 1 && normalized_dir(#[trigger] strs(src@)[b]) == Some(d)) && exists|root: Seq<char>|
                            #[trigger] excluded_dir(output_dir@, instances@, root) && path_starts_with(d, root)) by {
                            if exists|b: int| 0 <= b < j + 1 && normalized_dir(#[trigger] strs(src@)[b]) == Some(d) {
                                let b = choose|b: int| 0 <= b < j + 1 && normalized_dir(#[trigger] strs(src@)[b]) == Some(d);
                                if b < j {
                                    assert(exists|b2: int| 0 <= b2 < j && normalized_dir(#[trigger] strs(src@)[b2]) == Some(d));
                                }
                            }
                            if exists|b: int| 0 <= b < j && normalized_dir(#[trigger] strs(src@)[b]) == Some(d) {
                                let b = choose|b: int| 0 <= b < j && normalized_dir(#[trigger] strs(src@)[b]) == Some(d);
                                assert(0 <= b < j + 1);
                            }
                        }
                    }
                },
                None => {
                    proof {
                        assert forall|d: Seq<char>| #[trigger] strs(force@).contains(d) <==> before.contains(d) || ((exists|b: int|
                            0 <= b < j + 1 && normalized_dir(#[trigger] strs(src@)[b]) == Some(d)) && exists|root: Seq<char>|
                            #[trigger] excluded_dir(output_dir@, instances@, root) && path_starts_with(d, root)) by {
                            if exists|b: int| 0 <= b < j + 1 && normalized_dir(#[trigger] strs(src@)[b]) == Some(d) {
                                let b = choose|b: int| 0 <= b < j + 1 && normalized_dir(#[trigger] strs(src@)[b]) == Some(d);
                                assert(b != j);
                                assert(exists|b2: int| 0 <= b2 < j && normalized_dir(#[trigger] strs(src@)[b2]) == Some(d));
                            }
                            if exists|b: int| 0 <= b < j && normalized_dir(#[trigger] strs(src@)[b]) == Some(d) {
                                let b = choose|b: int| 0 <= b < j && normalized_dir(#[trigger] strs(src@)[b]) == Some(d);
                                assert(0 <= b < j + 1);
                            }
                        }
                    }
                },
            }
            j = j + 1;
        }
        proof {
            assert forall|d: Seq<char>| #[trigger] strs(force@).contains(d) <==> (exists|a: int, b: int|
                0 <= a < k + 1 && 0 <= b < list_field(instances@[a], "src_dirs"@).len() && normalized_dir(
                    #[trigger] list_field(instances@[a], "src_dirs"@)[b],
                ) == Some(d)) && exists|root: Seq<char>| #[trigger] excluded_dir(output_dir@, instances@, root) && path_starts_with(d, root) by {
                if exists|a: int, b: int|
                    0 <= a < k + 1 && 0 <= b < list_field(instances@[a], "src_dirs"@).len() && normalized_dir(
                        #[trigger] list_field(instances@[a], "src_dirs"@)[b],
                    ) == Some(d) {
                    let (a, b) = choose|a: int, b: int|
                        0 <= a < k + 1 && 0 <= b < list_field(instances@[a], "src_dirs"@).len() && normalized_dir(
                            #[trigger] list_field(instances@[a], "src_dirs"@)[b],
                        ) == Some(d);
                    if a == k {
                        assert(normalized_dir(strs(src@)[b]) == Some(d));
                    }
                }
                if exists|b: int| 0 <= b < src@.len() && normalized_dir(#[trigger] strs(src@)[b]) == Some(d) {
                    let b = choose|b: int| 0 <= b < src@.len() && normalized_dir(#[trigger] strs(src@)[b]) == Some(d);
                    assert(normalized_dir(list_field(instances@[k as int], "src_dirs"@)[b]) == Some(d));
                }
                if before.contains(d) {
                    let (a, b) = choose|a: int, b: int|
                        0 <= a < k && 0 <= b < list_field(instances@[a], "src_dirs"@).len() && normalized_dir(
                            #[trigger] list_field(instances@[a], "src_dirs"@)[b],
                        ) == Some(d);
                    assert(0 <= a < k + 1);
                }
            }
        }
        k = k + 1;
    }
    (exclude, force)
}

} // verus!
