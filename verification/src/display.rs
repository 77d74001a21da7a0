//! How products and paths are named in messages: which parts of a product
//! are shown, and whether a path is shown whole or by its file name.

use vstd::prelude::*;
use crate::text::{chars_of, string_of, strs, strings_eq};

verus! {

/// How a single path is written.
#[derive(Clone, Copy, Debug, PartialEq, Eq, Structural)]
pub enum PathFormat {
    /// Only the final component (`Path::file_name`), `?` when there is none.
    Basename,
    /// The whole path as given.
    Path,
}

/// Which part of a product's outputs is shown.
#[derive(Clone, Copy, Debug, PartialEq, Eq, Structural)]
pub enum OutputDisplay {
    /// Outputs are not shown.
    Omit,
    /// Each output by its file name.
    Basename,
    /// Each output by its whole path.
    Path,
}

/// Which part of a product's inputs is shown.
#[derive(Clone, Copy, Debug, PartialEq, Eq, Structural)]
pub enum InputDisplay {
    /// Inputs are not shown.
    Omit,
    /// Only the primary (first) input.
    Source,
    /// Every input.
    All,
}

/// The display settings used when naming a product.
#[derive(Clone, Copy, Debug, PartialEq, Eq, Structural)]
pub struct DisplayOptions {
    pub output: OutputDisplay,
    pub input: InputDisplay,
    pub path_format: PathFormat,
}

/// The terse form used in diagnostics: output file names only.
pub open spec fn minimal_options() -> DisplayOptions {
    DisplayOptions { output: OutputDisplay::Basename, input: InputDisplay::Omit, path_format: PathFormat::Basename }
}

impl DisplayOptions {
    /// The terse form used in diagnostics: output file names only.
    pub fn minimal() -> (r: DisplayOptions)
        ensures
            r == minimal_options(),
    {
        DisplayOptions { output: OutputDisplay::Basename, input: InputDisplay::Omit, path_format: PathFormat::Basename }
    }
}

/// A path component that names something: not empty and not `.`.
pub open spec fn is_named(c: Seq<char>) -> bool {
    c.len() > 0 && c != seq!['.']
}

/// Reading `s` left to right: the component being read, and the last named
/// component completed before it.
pub open spec fn name_scan(s: Seq<char>) -> (Seq<char>, Option<Seq<char>>)
    decreases s.len(),
{
    if s.len() == 0 {
        (Seq::empty(), None)
    } else {
        let prev = name_scan(s.drop_last());
        if s.last() == '/' {
            (Seq::empty(), if is_named(prev.0) { Some(prev.0) } else { prev.1 })
        } else {
            (prev.0.push(s.last()), prev.1)
        }
    }
}

/// The last named component of `s`.
pub open spec fn last_named(s: Seq<char>) -> Option<Seq<char>> {
    let scan = name_scan(s);
    if is_named(scan.0) {
        Some(scan.0)
    } else {
        scan.1
    }
}

/// `Path::file_name` on a `/`-separated path: the last component that names
/// something, unless that component is `..`.
pub open spec fn file_name_of(s: Seq<char>) -> Option<Seq<char>> {
    match last_named(s) {
        Some(c) => if c == seq!['.', '.'] {
            None
        } else {
            Some(c)
        },
        None => None,
    }
}

/// A path written in the given format.
pub open spec fn format_path_spec(p: Seq<char>, format: PathFormat) -> Seq<char> {
    match format {
        PathFormat::Basename => match file_name_of(p) {
            Some(n) => n,
            None => "?"@,
        },
        PathFormat::Path => p,
    }
}

fn is_named_exec(c: &Vec<char>) -> (r: bool)
    ensures
        r == is_named(c@),
{
    if c.len() == 0 {
        false
    } else if c.len() == 1 && c[0] == '.' {
        proof {
            assert(c@ =~= seq!['.']);
        }
        false
    } else {
        proof {
            if c.len() == 1 {
                assert(c@[0] != seq!['.'][0]);
            }
        }
        true
    }
}

/// The final component of `path`, as `Path::file_name` gives it.
pub fn file_name(path: &str) -> (r: Option<String>)
    ensures
        r matches Some(n) ==> file_name_of(path@) == Some(n@),
        r is None ==> file_name_of(path@) is None,
{
    let cs = chars_of(path);
    let mut cur: Vec<char> = Vec::new();
    let mut best: Vec<char> = Vec::new();
    let mut has_best: bool = false;
    let mut i: usize = 0;
    while i < cs.len()
        invariant
            0 <= i <= cs.len(),
            cs@ == path@,
            name_scan(cs@.take(i as int)) == (cur@, if has_best { Some(best@) } else { None }),
        decreases cs.len() - i,
    {
        proof {
            assert(cs@.take(i + 1).drop_last() =~= cs@.take(i as int));
        }
        let c: char = cs[i];
        if c == '/' {
            if is_named_exec(&cur) {
                best = cur;
                has_best = true;
            }
            cur = Vec::new();
            proof {
                assert(cur@ =~= Seq::<char>::empty());
            }
        } else {
            cur.push(c);
        }
        i = i + 1;
    }
    proof {
        assert(cs@.take(cs.len() as int) =~= cs@);
    }
    let last: Vec<char>;
    if is_named_exec(&cur) {
        last = cur;
    } else if has_best {
        last = best;
    } else {
        return None;
    }
    if last.len() == 2 && last[0] == '.' && last[1] == '.' {
        proof {
            assert(last@ =~= seq!['.', '.']);
        }
        None
    } else {
        proof {
            if last.len() == 2 {
                assert(last@[0] != seq!['.', '.'][0] || last@[1] != seq!['.', '.'][1]);
            }
        }
        Some(string_of(&last))
    }
}

/// `path` written in `format`.
pub fn format_path(path: &str, format: PathFormat) -> (r: String)
    ensures
        r@ == format_path_spec(path@, format),
{
    match format {
        PathFormat::Basename => match file_name(path) {
            Some(n) => n,
            None => String::from_str("?"),
        },
        PathFormat::Path => String::from_str(path),
    }
}

/// Each path of `v` written in `format`.
pub open spec fn formatted(v: Seq<Seq<char>>, format: PathFormat) -> Seq<Seq<char>> {
    v.map_values(|p: Seq<char>| format_path_spec(p, format))
}

/// Each path of `paths` written in `format`, in order.
pub fn format_paths(paths: &Vec<String>, format: PathFormat) -> (r: Vec<String>)
    ensures
        strs(r@) == formatted(strs(paths@), format),
{
    let mut r: Vec<String> = Vec::new();
    let mut i: usize = 0;
    while i < paths.len()
        invariant
            0 <= i <= paths.len(),
            strs(r@) == formatted(strs(paths@).take(i as int), format),
        decreases paths.len() - i,
    {
        let ghost before = r@;
        r.push(format_path(paths[i].as_str(), format));
        proof {
            assert(strs(r@) =~= strs(before).push(format_path_spec(paths@[i as int]@, format)));
            assert(formatted(strs(paths@).take(i + 1), format) =~= formatted(strs(paths@).take(i as int), format).push(
                format_path_spec(paths@[i as int]@, format),
            ));
        }
        i = i + 1;
    }
    proof {
        assert(strs(paths@).take(paths.len() as int) =~= strs(paths@));
    }
    r
}

/// Reading `s` left to right: the named components completed so far, and
/// the piece being read.
pub open spec fn comp_scan(s: Seq<char>) -> (Seq<Seq<char>>, Seq<char>)
    decreases s.len(),
{
    if s.len() == 0 {
        (Seq::empty(), Seq::empty())
    } else {
        let prev = comp_scan(s.drop_last());
        if s.last() == '/' {
            (
                if is_named(prev.1) {
                    prev.0.push(prev.1)
                } else {
                    prev.0
                },
                Seq::empty(),
            )
        } else {
            (prev.0, prev.1.push(s.last()))
        }
    }
}

/// The pieces of `s` between slashes that are neither empty nor `.`.
pub open spec fn named_components(s: Seq<char>) -> Seq<Seq<char>> {
    let scan = comp_scan(s);
    if is_named(scan.1) {
        scan.0.push(scan.1)
    } else {
        scan.0
    }
}

/// `s` begins with a `.` component.
pub open spec fn starts_at_current_dir(s: Seq<char>) -> bool {
    s == seq!['.'] || (s.len() >= 2 && s[0] == '.' && s[1] == '/')
}

/// `Path::components` on a `/`-separated path: a leading `/` as the root,
/// a leading `.` as the current directory, then the named pieces.
pub open spec fn path_components(s: Seq<char>) -> Seq<Seq<char>> {
    if s.len() > 0 && s[0] == '/' {
        seq![seq!['/']] + named_components(s)
    } else if starts_at_current_dir(s) {
        seq![seq!['.']] + named_components(s)
    } else {
        named_components(s)
    }
}

/// `Path::starts_with`: the components of `base` begin those of `path`.
pub open spec fn path_starts_with(path: Seq<char>, base: Seq<char>) -> bool {
    let b = path_components(base);
    let p = path_components(path);
    b.len() <= p.len() && p.take(b.len() as int) == b
}

/// The components of `path`, as `Path::components` lists them.
pub fn components(path: &str) -> (r: Vec<String>)
    ensures
        strs(r@) == path_components(path@),
{
    let cs = chars_of(path);
    let mut done: Vec<String> = Vec::new();
    let mut cur: Vec<char> = Vec::new();
    let mut i: usize = 0;
    while i < cs.len()
        invariant
            0 <= i <= cs.len(),
            cs@ == path@,
            comp_scan(cs@.take(i as int)) == (strs(done@), cur@),
        decreases cs.len() - i,
    {
        proof {
            assert(cs@.take(i + 1).drop_last() =~= cs@.take(i as int));
        }
        let c: char = cs[i];
        if c == '/' {
            if is_named_exec(&cur) {
                let ghost d0 = strs(done@);
                done.push(string_of(&cur));
                proof {
                    assert(strs(done@) =~= d0.push(cur@));
                }
            }
            cur = Vec::new();
            proof {
                assert(cur@ =~= Seq::<char>::empty());
            }
        } else {
            cur.push(c);
        }
        i = i + 1;
    }
    proof {
        assert(cs@.take(cs.len() as int) =~= cs@);
    }
    if is_named_exec(&cur) {
        let ghost d0 = strs(done@);
        done.push(string_of(&cur));
        proof {
            assert(strs(done@) =~= d0.push(cur@));
        }
    }
    let mut r: Vec<String> = Vec::new();
    if cs.len() > 0 && cs[0] == '/' {
        r.push(String::from_str("/"));
    } else if (cs.len() == 1 && cs[0] == '.') || (cs.len() >= 2 && cs[0] == '.' && cs[1] == '/') {
        r.push(String::from_str("."));
    }
    proof {
        if cs.len() == 1 && cs@[0] == '.' {
            assert(cs@ =~= seq!['.']);
        }
        if cs@ == seq!['.'] {
            assert(cs.len() == 1 && cs@[0] == '.');
        }
        reveal_strlit("/");
        reveal_strlit(".");
        assert("/"@ =~= seq!['/']);
        assert("."@ =~= seq!['.']);
        assert(strs(done@) == named_components(path@));
        if path@.len() > 0 && path@[0] == '/' {
            assert(strs(r@) =~= seq![seq!['/']]);
        } else if starts_at_current_dir(path@) {
            assert(strs(r@) =~= seq![seq!['.']]);
        } else {
            assert(strs(r@) =~= Seq::<Seq<char>>::empty());
        }
    }
    let ghost head = strs(r@);
    let mut k: usize = 0;
    while k < done.len()
        invariant
            0 <= k <= done.len(),
            strs(r@) == head + strs(done@).take(k as int),
        decreases done.len() - k,
    {
        let ghost r0 = strs(r@);
        r.push(done[k].clone());
        proof {
            assert(strs(r@) =~= r0.push(done@[k as int]@));
            assert(strs(done@).take(k + 1) =~= strs(done@).take(k as int).push(done@[k as int]@));
        }
        k = k + 1;
    }
    proof {
        assert(strs(done@).take(done.len() as int) =~= strs(done@));
        assert(strs(r@) =~= path_components(path@));
    }
    r
}

/// Whether the components of `base` begin those of `path`.
pub fn starts_with_path(path: &str, base: &str) -> (r: bool)
    ensures
        r == path_starts_with(path@, base@),
{
    let p = components(path);
    let b = components(base);
    if b.len() > p.len() {
        return false;
    }
    let mut i: usize = 0;
    while i < b.len()
        invariant
            0 <= i <= b.len(),
            b.len() <= p.len(),
            strs(p@) == path_components(path@),
            strs(b@) == path_components(base@),
            forall|j: int| 0 <= j < i ==> strs(p@)[j] == strs(b@)[j],
        decreases b.len() - i,
    {
        if p[i] != b[i] {
            proof {
                assert(strs(p@).take(b.len() as int)[i as int] != strs(b@)[i as int]);
            }
            return false;
        }
        i = i + 1;
    }
    proof {
        assert(strs(p@).take(b.len() as int) =~= strs(b@));
    }
    true
}

} // verus!
