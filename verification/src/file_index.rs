//! The project's file list: every file found when the tree was walked,
//! plus the outputs generators declare, kept sorted in path order and
//! queried by processors to discover their sources.

use vstd::prelude::*;
use crate::config::processor_configs::{StandardConfig, scan_resolved};
use crate::display::{components, file_name, file_name_of, path_components, path_starts_with, starts_with_path};
use crate::lexical::{lex_less, lex_lt, sorted_insert, strictly_sorted, lemma_lex_irreflexive, lemma_lex_total, lemma_lex_transitive};
use crate::text::{is_prefix, is_suffix, has_substring, str_views, str_contains, str_ends_with, str_eq, str_starts_with, strs, strs_contain};

verus! {

/// The project's files, relative to the project root, sorted in path order
/// without repeats.
#[derive(Debug, Clone)]
pub struct FileIndex {
    files: Vec<String>,
}

impl View for FileIndex {
    type V = Seq<Seq<char>>;

    closed spec fn view(&self) -> Seq<Seq<char>> {
        strs(self.files@)
    }
}

/// A walked path with its leading `./` removed.
pub open spec fn relative_path(p: Seq<char>) -> Seq<char> {
    if is_prefix(p, "./"@) {
        p.skip(2)
    } else {
        p
    }
}

/// How an extension selects a file name: one starting with `.` is a
/// suffix, any other is the whole name.
pub open spec fn ext_selects(name: Seq<char>, ext: Seq<char>) -> bool {
    if ext.len() > 0 && ext[0] == '.' {
        is_suffix(name, ext)
    } else {
        name == ext
    }
}

/// The file name of `p` ends with `ext`.
pub open spec fn name_ends_with(p: Seq<char>, ext: Seq<char>) -> bool {
    match file_name_of(p) {
        Some(n) => is_suffix(n, ext),
        None => false,
    }
}

/// The file name of `p`, empty when it has none.
pub open spec fn name_or_empty(p: Seq<char>) -> Seq<char> {
    match file_name_of(p) {
        Some(n) => n,
        None => Seq::empty(),
    }
}

/// Whether `query` keeps path `p`: when `src_files` lists any file, the
/// listed files and nothing else (an allowlist); otherwise a file that lies
/// under `root`, contains no excluded fragment, has a selected extension,
/// and is neither an excluded name nor an excluded path.
pub open spec fn query_keeps(
    p: Seq<char>,
    root: Seq<char>,
    extensions: Seq<Seq<char>>,
    exclude_dirs: Seq<Seq<char>>,
    exclude_files: Seq<Seq<char>>,
    exclude_paths: Seq<Seq<char>>,
    src_files: Seq<Seq<char>>,
) -> bool {
    if src_files.len() > 0 {
        src_files.contains(p)
    } else {
        &&& (root.len() == 0 || root == "."@ || path_starts_with(p, root))
        &&& !(exists|i: int| 0 <= i < exclude_dirs.len() && has_substring(p, #[trigger] exclude_dirs[i]))
        &&& exists|i: int| 0 <= i < extensions.len() && ext_selects(name_or_empty(p), #[trigger] extensions[i])
        &&& !exclude_files.contains(name_or_empty(p))
        &&& !exclude_paths.contains(p)
    }
}

/// The first `m` files that `query` keeps, in order.
pub open spec fn query_spec(
    files: Seq<Seq<char>>,
    m: int,
    root: Seq<char>,
    extensions: Seq<Seq<char>>,
    exclude_dirs: Seq<Seq<char>>,
    exclude_files: Seq<Seq<char>>,
    exclude_paths: Seq<Seq<char>>,
    src_files: Seq<Seq<char>>,
) -> Seq<Seq<char>>
    decreases m,
{
    if m <= 0 {
        Seq::empty()
    } else {
        let prev = query_spec(files, m - 1, root, extensions, exclude_dirs, exclude_files, exclude_paths, src_files);
        if query_keeps(files[m - 1], root, extensions, exclude_dirs, exclude_files, exclude_paths, src_files) {
            prev.push(files[m - 1])
        } else {
            prev
        }
    }
}

/// The scan roots of a processor: its source directories, or the project
/// root when it has none but lists explicit files.
pub open spec fn effective_dirs(src_dirs: Seq<Seq<char>>, src_files: Seq<Seq<char>>) -> Seq<Seq<char>> {
    if src_dirs.len() == 0 && src_files.len() > 0 {
        seq![Seq::empty()]
    } else {
        src_dirs
    }
}

/// The query root for a scan directory: `.` and the empty path both mean
/// the project root.
pub open spec fn scan_root(dir: Seq<char>) -> Seq<char> {
    if dir == "."@ || dir.len() == 0 {
        Seq::empty()
    } else {
        dir
    }
}

/// Whether `scan` finds `p` from directory `dir`.
pub open spec fn scan_finds(c: StandardConfig, recursive: bool, dir: Seq<char>, p: Seq<char>) -> bool {
    let root = scan_root(dir);
    &&& query_keeps(
        p,
        root,
        strs(c.src_extensions->0@),
        strs(c.src_exclude_dirs->0@),
        strs(c.src_exclude_files->0@),
        strs(c.src_exclude_paths->0@),
        strs(c.src_files->0@),
    )
    &&& (recursive || path_components(p).len() == path_components(root).len() + 1)
}

/// The `&str` views of a list of strings.
fn str_refs(v: &Vec<String>) -> (r: Vec<&str>)
    ensures
        str_views(r@) == strs(v@),
{
    let mut r: Vec<&str> = Vec::new();
    let mut i: usize = 0;
    while i < v.len()
        invariant
            0 <= i <= v.len(),
            str_views(r@) == strs(v@).take(i as int),
        decreases v.len() - i,
    {
        let ghost r0 = r@;
        r.push(v[i].as_str());
        proof {
            assert(str_views(r@) =~= str_views(r0).push(v@[i as int]@));
            assert(strs(v@).take(i + 1) =~= strs(v@).take(i as int).push(v@[i as int]@));
        }
        i = i + 1;
    }
    proof {
        assert(strs(v@).take(v.len() as int) =~= strs(v@));
    }
    r
}

/// The file name of `p`, empty when it has none.
fn name_of(p: &str) -> (r: String)
    ensures
        r@ == name_or_empty(p@),
{
    match file_name(p) {
        Some(n) => n,
        None => String::new(),
    }
}

/// Whether some entry of `v` occurs in `s`.
fn any_fragment_in(s: &str, v: &[&str]) -> (r: bool)
    ensures
        r == exists|i: int| 0 <= i < str_views(v@).len() && has_substring(s@, #[trigger] str_views(v@)[i]),
{
    let mut i: usize = 0;
    while i < v.len()
        invariant
            0 <= i <= v.len(),
            forall|j: int| 0 <= j < i ==> !has_substring(s@, #[trigger] str_views(v@)[j]),
        decreases v.len() - i,
    {
        if str_contains(s, v[i]) {
            proof {
                assert(has_substring(s@, str_views(v@)[i as int]));
            }
            return true;
        }
        i = i + 1;
    }
    false
}

/// Whether some extension of `v` selects the file name `name`.
fn any_ext_selects(name: &str, v: &[&str]) -> (r: bool)
    ensures
        r == exists|i: int| 0 <= i < str_views(v@).len() && ext_selects(name@, #[trigger] str_views(v@)[i]),
{
    let mut i: usize = 0;
    while i < v.len()
        invariant
            0 <= i <= v.len(),
            forall|j: int| 0 <= j < i ==> !ext_selects(name@, #[trigger] str_views(v@)[j]),
        decreases v.len() - i,
    {
        let ext: &str = v[i];
        let hit: bool = if str_starts_with(ext, ".") {
            proof {
                reveal_strlit(".");
                assert(ext@.len() > 0 && ext@[0] == '.') by {
                    assert(ext@.take(1)[0] == "."@[0]);
                }
            }
            str_ends_with(name, ext)
        } else {
            proof {
                reveal_strlit(".");
                if ext@.len() > 0 && ext@[0] == '.' {
                    assert(ext@.take(1) =~= "."@);
                }
            }
            str_eq(name, ext)
        };
        if hit {
            proof {
                assert(ext_selects(name@, str_views(v@)[i as int]));
            }
            return true;
        }
        i = i + 1;
    }
    false
}

impl FileIndex {
    /// The index invariant: sorted in path order, no repeats.
    pub open spec fn wf(&self) -> bool {
        strictly_sorted(self@, true)
    }

    /// An index of the given paths, sorted, each once.
    pub fn from_paths(paths: Vec<String>) -> (r: FileIndex)
        ensures
            r.wf(),
            forall|p: Seq<char>| #[trigger] r@.contains(p) <==> strs(paths@).contains(p),
    {
        let mut files: Vec<String> = Vec::new();
        let mut i: usize = 0;
        while i < paths.len()
            invariant
                0 <= i <= paths.len(),
                strictly_sorted(strs(files@), true),
                forall|p: Seq<char>| #[trigger] strs(files@).contains(p) <==> strs(paths@).take(i as int).contains(p),
            decreases paths.len() - i,
        {
            sorted_insert(&mut files, paths[i].clone(), true);
            proof {
                assert(strs(paths@).take(i + 1) =~= strs(paths@).take(i as int).push(paths@[i as int]@));
                assert forall|p: Seq<char>| #[trigger] strs(files@).contains(p) <==> strs(paths@).take(i + 1).contains(p) by {
                    vstd::seq_lib::lemma_seq_contains_after_push(strs(paths@).take(i as int), paths@[i as int]@, p);
                }
            }
            i = i + 1;
        }
        proof {
            assert(strs(paths@).take(paths.len() as int) =~= strs(paths@));
        }
        FileIndex { files }
    }

    /// The index of the files found by walking the project tree: each
    /// walked path without its leading `./`, sorted, each once.
    pub fn build(walked: Vec<String>) -> (r: FileIndex)
        ensures
            r.wf(),
            forall|p: Seq<char>| #[trigger] r@.contains(p) <==> exists|i: int| 0 <= i < walked@.len() && relative_path(
                #[trigger] walked@[i]@,
            ) == p,
    {
        let mut files: Vec<String> = Vec::new();
        let mut i: usize = 0;
        while i < walked.len()
            invariant
                0 <= i <= walked.len(),
                strictly_sorted(strs(files@), true),
                forall|p: Seq<char>| #[trigger] strs(files@).contains(p) <==> exists|j: int| 0 <= j < i && relative_path(
                    #[trigger] walked@[j]@,
                ) == p,
            decreases walked.len() - i,
        {
            let w: &str = walked[i].as_str();
            let rel: String = if str_starts_with(w, "./") {
                let cs = crate::text::chars_of(w);
                proof {
                    reveal_strlit("./");
                    assert(cs@.subrange(2, 2) =~= Seq::<char>::empty());
                }
                let mut v: Vec<char> = Vec::new();
                let mut k: usize = 2;
                while k < cs.len()
                    invariant
                        2 <= k <= cs.len(),
                        cs@ == w@,
                        v@ == cs@.subrange(2, k as int),
                    decreases cs.len() - k,
                {
                    v.push(cs[k]);
                    proof {
                        assert(v@ =~= cs@.subrange(2, k + 1));
                    }
                    k = k + 1;
                }
                proof {
                    reveal_strlit("./");
                    assert(v@ =~= w@.skip(2));
                }
                crate::text::string_of(&v)
            } else {
                String::from_str(w)
            };
            let ghost relv = rel@;
            proof {
                assert(relv == relative_path(walked@[i as int]@));
            }
            sorted_insert(&mut files, rel, true);
            proof {
                assert forall|p: Seq<char>| #[trigger] strs(files@).contains(p) <==> exists|j: int| 0 <= j < i + 1 && relative_path(
                    #[trigger] walked@[j]@,
                ) == p by {
                    if p == relv {
                        assert(relative_path(walked@[i as int]@) == p);
                    }
                    if exists|j: int| 0 <= j < i + 1 && relative_path(#[trigger] walked@[j]@) == p {
                        let j = choose|j: int| 0 <= j < i + 1 && relative_path(#[trigger] walked@[j]@) == p;
                        if j == i {
                        }
                    }
                }
            }
            i = i + 1;
        }
        FileIndex { files }
    }

    /// The files, in order, that match the given criteria. `root` limits
    /// the files to those under it (empty or `.` for all); an extension
    /// starting with `.` is a suffix of the file name, any other one is a
    /// whole file name; `src_exclude_dirs` are fragments of the path;
    /// `src_exclude_files` are file names; `src_exclude_paths` and
    /// `src_files` are whole paths. A non-empty `src_files` is an
    /// allowlist: exactly the listed files are matched, whatever the other
    /// criteria say.
    pub fn query(
        &self,
        root: &str,
        extensions: &[&str],
        src_exclude_dirs: &[&str],
        src_exclude_files: &[&str],
        src_exclude_paths: &[&str],
        src_files: &[&str],
    ) -> (r: Vec<String>)
        ensures
            strs(r@) == query_spec(
                self@,
                self@.len() as int,
                root@,
                str_views(extensions@),
                str_views(src_exclude_dirs@),
                str_views(src_exclude_files@),
                str_views(src_exclude_paths@),
                str_views(src_files@),
            ),
            self.wf() ==> strictly_sorted(strs(r@), true),
    {
        let ghost fs = self@;
        let mut r: Vec<String> = Vec::new();
        let mut i: usize = 0;
        while i < self.files.len()
            invariant
                0 <= i <= self.files.len(),
                fs == self@,
                fs.len() == self.files.len(),
                strs(r@) == query_spec(
                    fs,
                    i as int,
                    root@,
                    str_views(extensions@),
                    str_views(src_exclude_dirs@),
                    str_views(src_exclude_files@),
                    str_views(src_exclude_paths@),
                    str_views(src_files@),
                ),
            decreases self.files.len() - i,
        {
            let path: &str = self.files[i].as_str();
            proof {
                assert(fs[i as int] == path@);
            }
            let keep: bool = if src_files.len() > 0 {
                strs_contain(src_files, path)
            } else {
                let under_root: bool = if root.is_empty() || str_eq(root, ".") {
                    proof {
                        reveal_strlit(".");
                    }
                    true
                } else {
                    proof {
                        reveal_strlit(".");
                    }
                    starts_with_path(path, root)
                };
                if !under_root {
                    false
                } else if any_fragment_in(path, src_exclude_dirs) {
                    false
                } else {
                    let name: String = name_of(path);
                    if !any_ext_selects(name.as_str(), extensions) {
                        false
                    } else if strs_contain(src_exclude_files, name.as_str()) {
                        false
                    } else if strs_contain(src_exclude_paths, path) {
                        false
                    } else {
                        true
                    }
                }
            };
            if keep {
                let ghost r0 = strs(r@);
                r.push(String::from_str(path));
                proof {
                    assert(strs(r@) =~= r0.push(path@));
                }
            }
            i = i + 1;
        }
        proof {
            if self.wf() {
                lemma_query_sorted(
                    fs,
                    fs.len() as int,
                    root@,
                    str_views(extensions@),
                    str_views(src_exclude_dirs@),
                    str_views(src_exclude_files@),
                    str_views(src_exclude_paths@),
                    str_views(src_files@),
                );
            }
        }
        r
    }

    /// The sources `scan` finds: every file that the query of some scan
    /// directory keeps (and, unless `recursive`, that lies directly in that
    /// directory), sorted in path order, each once.
    pub fn scan(&self, scan: &StandardConfig, recursive: bool) -> (r: Vec<String>)
        requires
            scan_resolved(*scan),
        ensures
            strictly_sorted(strs(r@), true),
            forall|p: Seq<char>| #[trigger] strs(r@).contains(p) <==> (self@.contains(p) && exists|d: int|
                0 <= d < effective_dirs(strs(scan.src_dirs->0@), strs(scan.src_files->0@)).len() && scan_finds(
                    *scan,
                    recursive,
                    #[trigger] effective_dirs(strs(scan.src_dirs->0@), strs(scan.src_files->0@))[d],
                    p,
                )),
    {
        let exts = str_refs(scan.src_extensions());
        let ex_dirs = str_refs(scan.src_exclude_dirs());
        let ex_files = str_refs(scan.src_exclude_files());
        let ex_paths = str_refs(scan.src_exclude_paths());
        let includes = str_refs(scan.src_files());
        let src_dirs: &Vec<String> = scan.src_dirs();
        let ghost eds = effective_dirs(strs(scan.src_dirs->0@), strs(scan.src_files->0@));
        let dirs: Vec<String> = if src_dirs.len() == 0 && includes.len() > 0 {
            let mut v: Vec<String> = Vec::new();
            v.push(String::new());
            v
        } else {
            src_dirs.clone()
        };
        proof {
            assert(strs(dirs@) =~= eds);
        }
        let mut results: Vec<String> = Vec::new();
        let mut d: usize = 0;
        while d < dirs.len()
            invariant
                0 <= d <= dirs.len(),
                strs(dirs@) == eds,
                str_views(exts@) == strs(scan.src_extensions->0@),
                str_views(ex_dirs@) == strs(scan.src_exclude_dirs->0@),
                str_views(ex_files@) == strs(scan.src_exclude_files->0@),
                str_views(ex_paths@) == strs(scan.src_exclude_paths->0@),
                str_views(includes@) == strs(scan.src_files->0@),
                strictly_sorted(strs(results@), true),
                forall|p: Seq<char>| #[trigger] strs(results@).contains(p) <==> (self@.contains(p) && exists|dd: int|
                    0 <= dd < d && scan_finds(*scan, recursive, #[trigger] eds[dd], p)),
            decreases dirs.len() - d,
        {
            let dir: &str = dirs[d].as_str();
            proof {
                assert(eds[d as int] == dir@);
                reveal_strlit(".");
            }
            let root: String = if str_eq(dir, ".") || dir.is_empty() {
                String::new()
            } else {
                String::from_str(dir)
            };
            let found: Vec<String> = self.query(
                root.as_str(),
                exts.as_slice(),
                ex_dirs.as_slice(),
                ex_files.as_slice(),
                ex_paths.as_slice(),
                includes.as_slice(),
            );
            let root_depth: usize = components(root.as_str()).len();
            let ghost qs = strs(found@);
            proof {
                lemma_query_members(
                    self@,
                    self@.len() as int,
                    root@,
                    strs(scan.src_extensions->0@),
                    strs(scan.src_exclude_dirs->0@),
                    strs(scan.src_exclude_files->0@),
                    strs(scan.src_exclude_paths->0@),
                    strs(scan.src_files->0@),
                );
            }
            let ghost before = strs(results@);
            let mut k: usize = 0;
            while k < found.len()
                invariant
                    0 <= k <= found.len(),
                    qs == strs(found@),
                    root_depth == path_components(root@).len(),
                    root@ == scan_root(eds[d as int]),
                    strictly_sorted(strs(results@), true),
                    forall|p: Seq<char>| #[trigger] strs(results@).contains(p) <==> (before.contains(p) || exists|kk: int|
                        0 <= kk < k && qs[kk] == p && (recursive || path_components(p).len() == root_depth + 1)),
                decreases found.len() - k,
            {
                let p: &str = found[k].as_str();
                let keep: bool = if recursive {
                    true
                } else {
                    let depth: usize = components(p).len();
                    depth > 0 && depth - 1 == root_depth
                };
                let ghost r0 = strs(results@);
                if keep {
                    sorted_insert(&mut results, String::from_str(p), true);
                }
                proof {
                    assert(qs[k as int] == p@);
                    assert forall|q: Seq<char>| #[trigger] strs(results@).contains(q) <==> (before.contains(q) || exists|kk: int|
                        0 <= kk < k + 1 && qs[kk] == q && (recursive || path_components(q).len() == root_depth + 1)) by {
                        if exists|kk: int| 0 <= kk < k + 1 && qs[kk] == q && (recursive || path_components(q).len() == root_depth + 1) {
                            let kk = choose|kk: int| 0 <= kk < k + 1 && qs[kk] == q && (recursive || path_components(q).len() == root_depth + 1);
                            if kk == k {
                                assert(keep);
                            }
                        }
                    }
                }
                k = k + 1;
            }
            proof {
                assert forall|p: Seq<char>| #[trigger] strs(results@).contains(p) <==> (self@.contains(p) && exists|dd: int|
                    0 <= dd < d + 1 && scan_finds(*scan, recursive, #[trigger] eds[dd], p)) by {
                    if exists|kk: int| 0 <= kk < found.len() && qs[kk] == p && (recursive || path_components(p).len() == root_depth + 1) {
                        let kk = choose|kk: int| 0 <= kk < found.len() && qs[kk] == p && (recursive || path_components(p).len() == root_depth + 1);
                        assert(qs[kk] == p);
                        assert(qs.contains(p));
                        assert(scan_finds(*scan, recursive, eds[d as int], p));
                    }
                    if self@.contains(p) && scan_finds(*scan, recursive, eds[d as int], p) {
                        assert(self@.take(self@.len() as int) =~= self@);
                        assert(qs.contains(p));
                        let kk = choose|kk: int| 0 <= kk < qs.len() && qs[kk] == p;
                    }
                    if self@.contains(p) && exists|dd: int| 0 <= dd < d + 1 && scan_finds(*scan, recursive, #[trigger] eds[dd], p) {
                        let dd = choose|dd: int| 0 <= dd < d + 1 && scan_finds(*scan, recursive, #[trigger] eds[dd], p);
                        if dd < d {
                            assert(before.contains(p));
                        }
                    }
                }
            }
            d = d + 1;
        }
        results
    }

    /// Adds declared outputs of generators that are not on disk yet, keeping
    /// the index sorted. Returns how many paths were new.
    pub fn add_virtual_files(&mut self, paths: &[String]) -> (r: usize)
        requires
            old(self).wf(),
        ensures
            final(self).wf(),
            forall|p: Seq<char>| #[trigger] final(self)@.contains(p) <==> old(self)@.contains(p) || exists|i: int|
                0 <= i < paths@.len() && (#[trigger] paths@[i])@ == p,
            final(self)@.len() == old(self)@.len() + r,
    {
        let ghost f0 = self@;
        let mut added: usize = 0;
        let mut i: usize = 0;
        while i < paths.len()
            invariant
                0 <= i <= paths.len(),
                strictly_sorted(strs(self.files@), true),
                forall|p: Seq<char>| #[trigger] strs(self.files@).contains(p) <==> f0.contains(p) || exists|j: int|
                    0 <= j < i && (#[trigger] paths@[j])@ == p,
                strs(self.files@).len() == f0.len() + added,
            decreases paths.len() - i,
        {
            let ghost s0 = strs(self.files@);
            let inserted: bool = sorted_insert(&mut self.files, paths[i].clone(), true);
            let total: usize = self.files.len();
            if inserted {
                added = added + 1;
            }
            proof {
                assert forall|p: Seq<char>| #[trigger] strs(self.files@).contains(p) <==> f0.contains(p) || exists|j: int|
                    0 <= j < i + 1 && (#[trigger] paths@[j])@ == p by {
                    if exists|j: int| 0 <= j < i + 1 && (#[trigger] paths@[j])@ == p {
                        let j = choose|j: int| 0 <= j < i + 1 && (#[trigger] paths@[j])@ == p;
                        if j < i {
                            assert(s0.contains(p));
                        }
                    }
                }
            }
            i = i + 1;
        }
        added
    }

    /// All files, in path order.
    pub fn files(&self) -> (r: &[String])
        ensures
            strs(r@) == self@,
    {
        self.files.as_slice()
    }

    /// Whether some file's name ends with `ext` (e.g. `.py`).
    pub fn has_extension(&self, ext: &str) -> (r: bool)
        ensures
            r == exists|i: int| 0 <= i < self@.len() && #[trigger] name_ends_with(self@[i], ext@),
    {
        let mut i: usize = 0;
        while i < self.files.len()
            invariant
                0 <= i <= self.files.len(),
                self@.len() == self.files.len(),
                forall|j: int| 0 <= j < i ==> !#[trigger] name_ends_with(self@[j], ext@),
            decreases self.files.len() - i,
        {
            proof {
                assert(self@[i as int] == self.files@[i as int]@);
            }
            match file_name(self.files[i].as_str()) {
                Some(n) => {
                    if str_ends_with(n.as_str(), ext) {
                        proof {
                            assert(name_ends_with(self@[i as int], ext@));
                        }
                        return true;
                    }
                },
                None => {},
            }
            i = i + 1;
        }
        false
    }

    /// Whether `path` is in the index (a binary search over the sorted
    /// files).
    pub fn contains(&self, path: &str) -> (r: bool)
        requires
            self.wf(),
        ensures
            r == self@.contains(path@),
    {
        let ghost fs = self@;
        let mut lo: usize = 0;
        let mut hi: usize = self.files.len();
        while lo < hi
            invariant
                0 <= lo <= hi <= self.files.len(),
                fs == self@,
                fs.len() == self.files.len(),
                strictly_sorted(fs, true),
                forall|i: int| 0 <= i < lo ==> lex_lt(#[trigger] fs[i], path@, true),
                forall|i: int| hi <= i < fs.len() ==> lex_lt(path@, #[trigger] fs[i], true),
            decreases hi - lo,
        {
            let mid: usize = lo + (hi - lo) / 2;
            let here: &str = self.files[mid].as_str();
            proof {
                assert(fs[mid as int] == here@);
            }
            if str_eq(here, path) {
                return true;
            }
            if lex_less(here, path, true) {
                proof {
                    assert forall|i: int| 0 <= i < mid + 1 implies lex_lt(#[trigger] fs[i], path@, true) by {
                        if i < mid {
                            lemma_lex_transitive(fs[i], fs[mid as int], path@, true);
                        }
                    }
                }
                lo = mid + 1;
            } else {
                proof {
                    lemma_lex_total(here@, path@, true);
                    assert forall|i: int| mid <= i < fs.len() implies lex_lt(path@, #[trigger] fs[i], true) by {
                        if i > mid {
                            lemma_lex_transitive(path@, fs[mid as int], fs[i], true);
                        }
                    }
                }
                hi = mid;
            }
        }
        proof {
            if fs.contains(path@) {
                let i = choose|i: int| 0 <= i < fs.len() && fs[i] == path@;
                lemma_lex_irreflexive(path@, true);
            }
        }
        false
    }
}

/// A path is in the query's result exactly when the query keeps it and it
/// is among the files.
proof fn lemma_query_members(
    files: Seq<Seq<char>>,
    m: int,
    root: Seq<char>,
    extensions: Seq<Seq<char>>,
    exclude_dirs: Seq<Seq<char>>,
    exclude_files: Seq<Seq<char>>,
    exclude_paths: Seq<Seq<char>>,
    src_files: Seq<Seq<char>>,
)
    requires
        0 <= m <= files.len(),
    ensures
        forall|p: Seq<char>| #[trigger] query_spec(files, m, root, extensions, exclude_dirs, exclude_files, exclude_paths, src_files).contains(p)
            <==> (files.take(m).contains(p) && query_keeps(p, root, extensions, exclude_dirs, exclude_files, exclude_paths, src_files)),
    decreases m,
{
    if m > 0 {
        lemma_query_members(files, m - 1, root, extensions, exclude_dirs, exclude_files, exclude_paths, src_files);
        let prev = query_spec(files, m - 1, root, extensions, exclude_dirs, exclude_files, exclude_paths, src_files);
        assert(files.take(m) =~= files.take(m - 1).push(files[m - 1]));
        assert forall|p: Seq<char>| #[trigger] query_spec(files, m, root, extensions, exclude_dirs, exclude_files, exclude_paths, src_files).contains(p)
            <==> (files.take(m).contains(p) && query_keeps(p, root, extensions, exclude_dirs, exclude_files, exclude_paths, src_files)) by {
            vstd::seq_lib::lemma_seq_contains_after_push(files.take(m - 1), files[m - 1], p);
            vstd::seq_lib::lemma_seq_contains_after_push(prev, files[m - 1], p);
        }
    } else {
        assert(files.take(0) =~= Seq::<Seq<char>>::empty());
    }
}

/// A query keeps the index's order: over files in strictly increasing
/// path order, the files it keeps are in strictly increasing path order.
pub proof fn lemma_query_sorted(
    files: Seq<Seq<char>>,
    m: int,
    root: Seq<char>,
    extensions: Seq<Seq<char>>,
    exclude_dirs: Seq<Seq<char>>,
    exclude_files: Seq<Seq<char>>,
    exclude_paths: Seq<Seq<char>>,
    src_files: Seq<Seq<char>>,
)
    requires
        strictly_sorted(files, true),
        0 <= m <= files.len(),
    ensures
        strictly_sorted(query_spec(files, m, root, extensions, exclude_dirs, exclude_files, exclude_paths, src_files), true),
    decreases m,
{
    if m > 0 {
        lemma_query_sorted(files, m - 1, root, extensions, exclude_dirs, exclude_files, exclude_paths, src_files);
        lemma_query_members(files, m - 1, root, extensions, exclude_dirs, exclude_files, exclude_paths, src_files);
        let prev = query_spec(files, m - 1, root, extensions, exclude_dirs, exclude_files, exclude_paths, src_files);
        let cur = query_spec(files, m, root, extensions, exclude_dirs, exclude_files, exclude_paths, src_files);
        if query_keeps(files[m - 1], root, extensions, exclude_dirs, exclude_files, exclude_paths, src_files) {
            assert forall|i: int, j: int| 0 <= i < j < cur.len() implies lex_lt(#[trigger] cur[i], #[trigger] cur[j], true) by {
                if j == cur.len() - 1 {
                    assert(prev.contains(prev[i]));
                    assert(files.take(m - 1).contains(cur[i]));
                    let k = choose|k: int| 0 <= k < files.take(m - 1).len() && #[trigger] files.take(m - 1)[k] == cur[i];
                    assert(files[k] == cur[i]);
                } else {
                    assert(cur[i] == prev[i] && cur[j] == prev[j]);
                }
            }
        }
    }
}

/// Adding paths the index already holds adds nothing: the count is 0 and
/// the index is unchanged (so repeating an `add_virtual_files` call
/// returns 0).
pub proof fn lemma_adding_known_paths_adds_nothing(before: Seq<Seq<char>>, after: Seq<Seq<char>>, paths: Seq<Seq<char>>, added: nat)
    requires
        strictly_sorted(before, true),
        strictly_sorted(after, true),
        forall|p: Seq<char>| #[trigger] after.contains(p) <==> before.contains(p) || paths.contains(p),
        forall|i: int| 0 <= i < paths.len() ==> before.contains(#[trigger] paths[i]),
        after.len() == before.len() + added,
    ensures
        added == 0,
        after == before,
{
    assert forall|p: Seq<char>| #[trigger] after.contains(p) <==> before.contains(p) by {
        if paths.contains(p) {
            let i = choose|i: int| 0 <= i < paths.len() && paths[i] == p;
            assert(before.contains(paths[i]));
        }
    }
    crate::lexical::lemma_strict_unique(after, before, true);
}

/// What a query of the index returns for the root of scan directory `dir`
/// with the scan's lists.
pub open spec fn dir_query(files: Seq<Seq<char>>, c: StandardConfig, dir: Seq<char>) -> Seq<Seq<char>> {
    query_spec(
        files,
        files.len() as int,
        scan_root(dir),
        strs(c.src_extensions->0@),
        strs(c.src_exclude_dirs->0@),
        strs(c.src_exclude_files->0@),
        strs(c.src_exclude_paths->0@),
        strs(c.src_files->0@),
    )
}

/// The sources a scan finds are the union, over its scan directories (its
/// source directories, or the project root when it has none but lists
/// files), of what `query` returns for each directory's root with the
/// scan's lists; unless `recursive`, only the files directly in that
/// directory are kept.
pub proof fn lemma_scan_is_union_of_queries(files: Seq<Seq<char>>, c: StandardConfig, recursive: bool, p: Seq<char>)
    ensures
        ({
            let eds = effective_dirs(strs(c.src_dirs->0@), strs(c.src_files->0@));
            (files.contains(p) && exists|d: int| 0 <= d < eds.len() && scan_finds(c, recursive, #[trigger] eds[d], p))
                <==> exists|d: int|
                0 <= d < eds.len() && #[trigger] dir_query(files, c, eds[d]).contains(p) && (recursive || path_components(
                    p,
                ).len() == path_components(scan_root(eds[d])).len() + 1)
        }),
{
    let eds = effective_dirs(strs(c.src_dirs->0@), strs(c.src_files->0@));
    assert(files.take(files.len() as int) =~= files);
    assert forall|d: int| 0 <= d < eds.len() implies (#[trigger] dir_query(files, c, eds[d]).contains(p) <==> (
    files.contains(p) && query_keeps(
        p,
        scan_root(eds[d]),
        strs(c.src_extensions->0@),
        strs(c.src_exclude_dirs->0@),
        strs(c.src_exclude_files->0@),
        strs(c.src_exclude_paths->0@),
        strs(c.src_files->0@),
    ))) by {
        lemma_query_members(
            files,
            files.len() as int,
            scan_root(eds[d]),
            strs(c.src_extensions->0@),
            strs(c.src_exclude_dirs->0@),
            strs(c.src_exclude_files->0@),
            strs(c.src_exclude_paths->0@),
            strs(c.src_files->0@),
        );
    }
    if files.contains(p) && exists|d: int| 0 <= d < eds.len() && scan_finds(c, recursive, #[trigger] eds[d], p) {
        let d = choose|d: int| 0 <= d < eds.len() && scan_finds(c, recursive, #[trigger] eds[d], p);
        assert(dir_query(files, c, eds[d]).contains(p));
    }
    if exists|d: int|
        0 <= d < eds.len() && #[trigger] dir_query(files, c, eds[d]).contains(p) && (recursive || path_components(p).len()
            == path_components(scan_root(eds[d])).len() + 1) {
        let d = choose|d: int|
            0 <= d < eds.len() && #[trigger] dir_query(files, c, eds[d]).contains(p) && (recursive || path_components(
                p,
            ).len() == path_components(scan_root(eds[d])).len() + 1);
        assert(scan_finds(c, recursive, eds[d], p));
    }
}

} // verus!
