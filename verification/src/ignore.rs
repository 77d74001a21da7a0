//! The project's ignore file, `.rsbignore`: one glob per line, matched by
//! `globset` against paths relative to the project root.

use vstd::prelude::*;
use crate::exit_code::{ErrorChain, ErrorLink};
use crate::display::{components, path_components, path_starts_with, starts_at_current_dir, starts_with_path};
use crate::text::{chars_of, lines_of, split_lines, string_between, strings_eq, strs, trim, trim_spec};

verus! {

#[verifier::external_type_specification]
#[verifier::external_body]
pub struct ExGlobsetGlob(globset::Glob);

#[verifier::external_type_specification]
#[verifier::external_body]
pub struct ExGlobSetBuilder(globset::GlobSetBuilder);

#[verifier::external_type_specification]
#[verifier::external_body]
pub struct ExGlobSet(globset::GlobSet);

/// The error `globset::Glob::new` reports for `pattern`, as it displays,
/// or `None` when the pattern compiles.
pub uninterp spec fn globset_glob_error(pattern: Seq<char>) -> Option<Seq<char>>;

/// The patterns a `globset::GlobSetBuilder` holds, in the order added.
pub uninterp spec fn builder_patterns(b: globset::GlobSetBuilder) -> Seq<Seq<char>>;

/// The error `globset::GlobSetBuilder::build` reports for a builder of
/// these patterns, as it displays, or `None` when the set builds.
pub uninterp spec fn globset_build_error(patterns: Seq<Seq<char>>) -> Option<Seq<char>>;

/// The patterns a `globset::GlobSet` was built from, in order.
pub uninterp spec fn globset_patterns(s: globset::GlobSet) -> Seq<Seq<char>>;

/// Whether `globset::GlobSet::is_match` accepts `path` for the set built
/// from `patterns`, on the target the library is built for (the crate
/// turns path separators into `/` only on targets other than Unix).
pub uninterp spec fn globset_matches(patterns: Seq<Seq<char>>, path: Seq<char>) -> bool;

/// A compiled `globset` glob together with the text it was compiled from.
pub struct IgnoreGlob {
    source: String,
    glob: globset::Glob,
}

impl View for IgnoreGlob {
    type V = Seq<char>;

    closed spec fn view(&self) -> Seq<char> {
        self.source@
    }
}

/// `globset::Glob::new`: compiles `pattern`, keeping its text; on failure
/// the error as it displays. The contract names both outcomes as a
/// function of the pattern.
#[verifier::external_body]
fn compile_ignore_glob(pattern: &str) -> (r: Result<IgnoreGlob, String>)
    ensures
        r is Ok <==> globset_glob_error(pattern@) is None,
        r matches Ok(g) ==> g@ == pattern@,
        r matches Err(m) ==> globset_glob_error(pattern@) == Some(m@),
{
    match globset::Glob::new(pattern) {
        Ok(glob) => Ok(IgnoreGlob { source: pattern.to_string(), glob }),
        Err(e) => Err(e.to_string()),
    }
}

/// `globset::GlobSetBuilder::new`: a builder holding no pattern.
#[verifier::external_body]
fn new_builder() -> (r: globset::GlobSetBuilder)
    ensures
        builder_patterns(r) == Seq::<Seq<char>>::empty(),
{
    globset::GlobSetBuilder::new()
}

/// `globset::GlobSetBuilder::add`: appends the glob.
#[verifier::external_body]
fn builder_add(b: &mut globset::GlobSetBuilder, g: IgnoreGlob)
    ensures
        builder_patterns(*final(b)) == builder_patterns(*old(b)).push(g@),
{
    b.add(g.glob);
}

/// `globset::GlobSetBuilder::build`: the set of the builder's patterns, or
/// the error as it displays; both named as a function of the patterns.
#[verifier::external_body]
fn builder_build(b: &globset::GlobSetBuilder) -> (r: Result<globset::GlobSet, String>)
    ensures
        r is Ok <==> globset_build_error(builder_patterns(*b)) is None,
        r matches Ok(s) ==> globset_patterns(s) == builder_patterns(*b),
        r matches Err(m) ==> globset_build_error(builder_patterns(*b)) == Some(m@),
{
    b.build().map_err(|e| e.to_string())
}

/// `globset::GlobSet::is_match`: whether some glob of the set matches
/// `path`; an empty set matches nothing (as its documentation says).
#[verifier::external_body]
fn set_is_match(s: &globset::GlobSet, path: &str) -> (r: bool)
    ensures
        r == globset_matches(globset_patterns(*s), path@),
        globset_patterns(*s).len() == 0 ==> !r,
{
    s.is_match(path)
}

/// The file the rules are read from, in the project root.
pub const IGNORE_FILE: &'static str = ".rsbignore";

/// A line of the ignore file that is a pattern: not blank, not a comment.
pub open spec fn is_pattern_line(t: Seq<char>) -> bool {
    t.len() > 0 && t[0] != '#'
}

/// The patterns among the first `m` lines, each trimmed.
pub open spec fn patterns_upto(lines: Seq<Seq<char>>, m: int) -> Seq<Seq<char>>
    decreases m,
{
    if m <= 0 {
        Seq::empty()
    } else if is_pattern_line(trim_spec(lines[m - 1])) {
        patterns_upto(lines, m - 1).push(trim_spec(lines[m - 1]))
    } else {
        patterns_upto(lines, m - 1)
    }
}

/// The patterns of an ignore file: its lines, trimmed, skipping blank lines
/// and `#` comments.
pub open spec fn ignore_lines(content: Seq<char>) -> Seq<Seq<char>> {
    patterns_upto(lines_of(content), lines_of(content).len() as int)
}

/// The patterns of an ignore file's text (see `ignore_lines`).
pub fn ignore_patterns(content: &str) -> (r: Vec<String>)
    ensures
        strs(r@) == ignore_lines(content@),
{
    let lines: Vec<String> = split_lines(content);
    let ghost ls = lines_of(content@);
    let mut r: Vec<String> = Vec::new();
    let mut i: usize = 0;
    while i < lines.len()
        invariant
            0 <= i <= lines.len(),
            strs(lines@) == ls,
            strs(r@) == patterns_upto(ls, i as int),
        decreases lines.len() - i,
    {
        proof {
            assert(ls[i as int] == lines@[i as int]@);
        }
        let t: String = trim(lines[i].as_str());
        let tc = chars_of(t.as_str());
        if tc.len() > 0 && tc[0] != '#' {
            let ghost r0 = strs(r@);
            r.push(t);
            proof {
                assert(strs(r@) =~= r0.push(trim_spec(ls[i as int])));
            }
        }
        i = i + 1;
    }
    r
}

/// The first `j` from `k` on at which the first `j` characters of `path`
/// have exactly the components `rc`: where the last of them ends.
pub open spec fn first_cut(path: Seq<char>, rc: Seq<Seq<char>>, k: int) -> Option<nat>
    decreases path.len() + 1 - k,
{
    if k < 0 || k > path.len() {
        None
    } else if path_components(path.take(k)) == rc {
        Some(k as nat)
    } else {
        first_cut(path, rc, k + 1)
    }
}

/// `s` without the empty and `.` components at its front, with their
/// separators.
pub open spec fn trim_front(s: Seq<char>) -> Seq<char>
    decreases s.len(),
{
    if s.len() == 0 {
        s
    } else if s[0] == '/' {
        trim_front(s.drop_first())
    } else if s[0] == '.' && s.len() == 1 {
        Seq::empty()
    } else if s[0] == '.' && s[1] == '/' {
        trim_front(s.skip(2))
    } else {
        s
    }
}

/// `s` without the empty and `.` components at its end, with their
/// separators.
pub open spec fn trim_back(s: Seq<char>) -> Seq<char>
    decreases s.len(),
{
    if s.len() == 0 {
        s
    } else if s.last() == '/' {
        trim_back(s.drop_last())
    } else if s.last() == '.' && s.len() == 1 {
        Seq::empty()
    } else if s.last() == '.' && s[s.len() - 2] == '/' {
        trim_back(s.take(s.len() - 2))
    } else {
        s
    }
}

/// The length of the root or leading `.` component of `path`: 1 if there
/// is one, else 0.
pub open spec fn lead_len(path: Seq<char>) -> int {
    if (path.len() > 0 && path[0] == '/') || starts_at_current_dir(path) {
        1
    } else {
        0
    }
}

/// A path made relative to the project root, as `Path::strip_prefix` does:
/// when the components of `root` begin those of `path`, the text after
/// the last of them, without the empty and `.` components at either end
/// (with an empty root, only at the end, and never the root or leading
/// `.` itself); otherwise the path as it is.
pub open spec fn strip_root(root: Seq<char>, path: Seq<char>) -> Seq<char> {
    if !path_starts_with(path, root) {
        path
    } else {
        match first_cut(path, path_components(root), 0) {
            None => path,
            Some(j) => if j == 0 {
                path.take(lead_len(path)) + trim_back(path.skip(lead_len(path)))
            } else {
                trim_back(trim_front(path.skip(j as int)))
            },
        }
    }
}

/// The rules of a project's ignore file.
pub struct IgnoreRules {
    set: Option<globset::GlobSet>,
    project_root: String,
}

impl View for IgnoreRules {
    type V = Seq<Seq<char>>;

    /// The patterns of the rules, in file order.
    closed spec fn view(&self) -> Seq<Seq<char>> {
        match self.set {
            Some(s) => globset_patterns(s),
            None => Seq::empty(),
        }
    }
}

/// The first pattern from `k` on that does not compile.
pub open spec fn first_bad_glob(patterns: Seq<Seq<char>>, k: int) -> Option<nat>
    decreases patterns.len() - k,
{
    if k < 0 || k >= patterns.len() {
        None
    } else if globset_glob_error(patterns[k]) is Some {
        Some(k as nat)
    } else {
        first_bad_glob(patterns, k + 1)
    }
}

/// The chain is the context line `outer` over the cause `inner`.
pub open spec fn context_over(c: ErrorChain, outer: Seq<char>, inner: Seq<char>) -> bool {
    c.links@.len() == 2 && c.links@[0] is Message && c.links@[0]->Message_0@ == outer && c.links@[1] is Message
        && c.links@[1]->Message_0@ == inner
}

/// A context line over a cause.
fn with_context(outer: &str, inner: &str) -> (r: ErrorChain)
    ensures
        context_over(r, outer@, inner@),
{
    ErrorChain::message(inner).context(outer)
}

/// What reading an ignore file's text gives: an error for the first
/// pattern that does not compile (the pattern over the glob error), or for a
/// set that does not build; else the rules of its patterns.
pub open spec fn rules_outcome(project_root: Seq<char>, content: Seq<char>, r: Result<IgnoreRules, ErrorChain>) -> bool {
    match first_bad_glob(ignore_lines(content), 0) {
        Some(i) => (r matches Err(c) && context_over(
            c,
            "Invalid glob pattern in .rsbignore: "@ + ignore_lines(content)[i as int],
            globset_glob_error(ignore_lines(content)[i as int])->0,
        )),
        None => match globset_build_error(ignore_lines(content)) {
            Some(e) => (r matches Err(c) && context_over(c, "Failed to build ignore glob set"@, e)),
            None => (r matches Ok(rules) && rules@ == ignore_lines(content) && rules.root() == project_root),
        },
    }
}

impl IgnoreRules {
    /// The project root the rules strip from paths.
    pub closed spec fn root(&self) -> Seq<char> {
        self.project_root@
    }

    /// Rules that ignore nothing.
    pub fn empty(project_root: &str) -> (r: IgnoreRules)
        ensures
            r@ == Seq::<Seq<char>>::empty(),
            r.root() == project_root@,
    {
        IgnoreRules { set: None, project_root: String::from_str(project_root) }
    }

    /// The rules of an ignore file's text: its patterns (see
    /// `ignore_lines`) compiled into one glob set. The first pattern that
    /// does not compile is an error naming it over the glob error; a set
    /// that does not build is an error over the build error.
    pub fn from_content(project_root: &str, content: &str) -> (r: Result<IgnoreRules, ErrorChain>)
        ensures
            rules_outcome(project_root@, content@, r),
    {
        let patterns: Vec<String> = ignore_patterns(content);
        let ghost ps = strs(patterns@);
        let mut builder = new_builder();
        let mut i: usize = 0;
        while i < patterns.len()
            invariant
                0 <= i <= patterns.len(),
                ps == strs(patterns@),
                ps == ignore_lines(content@),
                builder_patterns(builder) == ps.take(i as int),
                first_bad_glob(ps, 0) == first_bad_glob(ps, i as int),
            decreases patterns.len() - i,
        {
            proof {
                assert(ps[i as int] == patterns@[i as int]@);
            }
            match compile_ignore_glob(patterns[i].as_str()) {
                Ok(g) => {
                    builder_add(&mut builder, g);
                    proof {
                        assert(ps.take(i + 1) =~= ps.take(i as int).push(ps[i as int]));
                    }
                },
                Err(e) => {
                    let mut outer: String = String::from_str("Invalid glob pattern in .rsbignore: ");
                    outer.append(patterns[i].as_str());
                    return Err(with_context(outer.as_str(), e.as_str()));
                },
            }
            i = i + 1;
        }
        proof {
            assert(ps.take(ps.len() as int) =~= ps);
        }
        match builder_build(&builder) {
            Ok(set) => Ok(IgnoreRules { set: Some(set), project_root: String::from_str(project_root) }),
            Err(e) => Err(with_context("Failed to build ignore glob set", e.as_str())),
        }
    }

    /// The rules of a project: none when it has no ignore file (`content`
    /// is `None`), else those of the file's text (see `from_content`).
    pub fn load(project_root: &str, content: Option<&str>) -> (r: Result<IgnoreRules, ErrorChain>)
        ensures
            content is None ==> (r matches Ok(rules) && rules@ == Seq::<Seq<char>>::empty() && rules.root() == project_root@),
            content matches Some(c) ==> rules_outcome(project_root@, c@, r),
    {
        match content {
            None => Ok(IgnoreRules::empty(project_root)),
            Some(c) => IgnoreRules::from_content(project_root, c),
        }
    }

    /// Whether `path` is ignored: some pattern matches it relative to the
    /// project root (see `strip_root`).
    pub fn is_ignored(&self, path: &str) -> (r: bool)
        ensures
            r == (self@.len() > 0 && globset_matches(self@, strip_root(self.root(), path@))),
    {
        let set: &globset::GlobSet = match &self.set {
            Some(s) => s,
            None => {
                return false;
            },
        };
        let rel: String = strip_root_of(self.project_root.as_str(), path);
        set_is_match(set, rel.as_str())
    }
}

/// `v[lo..hi]` without the empty and `.` components at its front: the new
/// start.
fn trim_front_at(v: &Vec<char>, lo: usize, hi: usize) -> (r: usize)
    requires
        lo <= hi <= v.len(),
    ensures
        lo <= r <= hi,
        v@.subrange(r as int, hi as int) == trim_front(v@.subrange(lo as int, hi as int)),
{
    let mut i: usize = lo;
    while i < hi
        invariant
            lo <= i <= hi,
            hi <= v.len(),
            trim_front(v@.subrange(i as int, hi as int)) == trim_front(v@.subrange(lo as int, hi as int)),
        decreases hi - i,
    {
        let ghost t = v@.subrange(i as int, hi as int);
        assert(t[0] == v@[i as int]);
        if v[i] == '/' {
            assert(t.drop_first() =~= v@.subrange(i + 1, hi as int));
            i = i + 1;
        } else if v[i] == '.' && i + 1 == hi {
            assert(trim_front(t) == Seq::<char>::empty());
            assert(v@.subrange(hi as int, hi as int) =~= Seq::<char>::empty());
            return hi;
        } else if v[i] == '.' && v[i + 1] == '/' {
            assert(t[1] == v@[i + 1]);
            assert(t.skip(2) =~= v@.subrange(i + 2, hi as int));
            i = i + 2;
        } else {
            return i;
        }
    }
    i
}

/// `v[lo..hi]` without the empty and `.` components at its end: the new
/// end.
fn trim_back_at(v: &Vec<char>, lo: usize, hi: usize) -> (r: usize)
    requires
        lo <= hi <= v.len(),
    ensures
        lo <= r <= hi,
        v@.subrange(lo as int, r as int) == trim_back(v@.subrange(lo as int, hi as int)),
{
    let mut e: usize = hi;
    while e > lo
        invariant
            lo <= e <= hi,
            hi <= v.len(),
            trim_back(v@.subrange(lo as int, e as int)) == trim_back(v@.subrange(lo as int, hi as int)),
        decreases e - lo,
    {
        let ghost t = v@.subrange(lo as int, e as int);
        assert(t.last() == v@[e - 1]);
        if v[e - 1] == '/' {
            assert(t.drop_last() =~= v@.subrange(lo as int, e - 1));
            e = e - 1;
        } else if v[e - 1] == '.' && e - 1 == lo {
            assert(trim_back(t) == Seq::<char>::empty());
            assert(v@.subrange(lo as int, lo as int) =~= Seq::<char>::empty());
            return lo;
        } else if v[e - 1] == '.' && v[e - 2] == '/' {
            assert(t[t.len() - 2] == v@[e - 2]);
            assert(t.take(t.len() - 2) =~= v@.subrange(lo as int, e - 2));
            e = e - 2;
        } else {
            return e;
        }
    }
    e
}

/// Where the first `j` characters of `v` first have exactly the components
/// `rc`.
fn find_cut(v: &Vec<char>, rc: &Vec<String>) -> (r: Option<usize>)
    ensures
        r matches Some(j) ==> j <= v@.len() && first_cut(v@, strs(rc@), 0) == Some(j as nat),
        r is None ==> first_cut(v@, strs(rc@), 0) is None,
{
    let mut j: usize = 0;
    while j < v.len()
        invariant
            0 <= j <= v.len(),
            first_cut(v@, strs(rc@), 0) == first_cut(v@, strs(rc@), j as int),
        decreases v.len() - j,
    {
        let pre: String = string_between(v, 0, j);
        proof {
            assert(pre@ =~= v@.take(j as int));
        }
        if strings_eq(&components(pre.as_str()), rc) {
            return Some(j);
        }
        j = j + 1;
    }
    let pre: String = string_between(v, 0, j);
    proof {
        assert(pre@ =~= v@.take(j as int));
        assert(first_cut(v@, strs(rc@), j + 1) is None);
    }
    if strings_eq(&components(pre.as_str()), rc) {
        return Some(j);
    }
    None
}

/// A path made relative to the project root (see `strip_root`).
pub fn strip_root_of(root: &str, path: &str) -> (r: String)
    ensures
        r@ == strip_root(root@, path@),
{
    if !starts_with_path(path, root) {
        return String::from_str(path);
    }
    let rc: Vec<String> = components(root);
    let pc: Vec<char> = chars_of(path);
    let j: usize = match find_cut(&pc, &rc) {
        Some(j) => j,
        None => {
            return String::from_str(path);
        },
    };
    if j == 0 {
        let lead: usize = if pc.len() > 0 && (pc[0] == '/' || (pc[0] == '.' && (pc.len() == 1 || pc[1] == '/'))) {
            1
        } else {
            0
        };
        proof {
            if pc.len() == 1 && pc[0] == '.' {
                assert(path@ =~= seq!['.']);
            }
            if path@ == seq!['.'] {
                assert(pc@[0] == '.');
            }
            assert(lead == lead_len(path@));
            assert(first_cut(path@, path_components(root@), 0) == Some(0nat));
        }
        let e: usize = trim_back_at(&pc, lead, pc.len());
        proof {
            assert(pc@.subrange(0, e as int) =~= path@.take(lead as int) + pc@.subrange(lead as int, e as int));
            assert(pc@.subrange(lead as int, pc.len() as int) =~= path@.skip(lead as int));
        }
        return string_between(&pc, 0, e);
    }
    let a: usize = trim_front_at(&pc, j, pc.len());
    let e: usize = trim_back_at(&pc, a, pc.len());
    proof {
        assert(pc@.subrange(j as int, pc.len() as int) =~= path@.skip(j as int));
    }
    string_between(&pc, a, e)
}

} // verus!
