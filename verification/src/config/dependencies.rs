//! The `[dependencies]` section: the packages a project declares per package
//! manager, and how the Python package set is assembled from it and from
//! the project's own metadata.

use vstd::prelude::*;
use crate::lexical::{sort_strings, sorted_of};
use crate::text::{chars_of, is_prefix, join, join_strings, lines_of, split_lines, string_between, strings_contain, strs, trim, trim_spec};
use crate::config::toml_value::{TomlValue, entry_index, entry_keys_of, find_entry, parse_toml_document, table_contains, toml_parse};
use crate::exit_code::{ErrorChain, ErrorLink, RsconstructError, RsconstructExitCode, config_error};

verus! {

/// Where `install-deps` and `doctor` take the Python package set from.
#[derive(Debug, Clone, Copy, PartialEq, Eq, Structural)]
pub enum PipSource {
    /// The exact pinned closure from `uv.lock`, plus the declared extras.
    UvLock,
    /// The names declared in `pyproject.toml`, resolved at install time.
    Pyproject,
}

impl Default for PipSource {
    fn default() -> (r: Self)
        ensures
            r == PipSource::UvLock,
    {
        PipSource::UvLock
    }
}

/// Which tool `install-deps` hands the Python package set to.
#[derive(Debug, Clone, Copy, PartialEq, Eq, Structural)]
pub enum PythonInstaller {
    Uv,
    Pip,
}

impl Default for PythonInstaller {
    fn default() -> (r: Self)
        ensures
            r == PythonInstaller::Uv,
    {
        PythonInstaller::Uv
    }
}

/// Declared project dependencies by package manager.
#[derive(Debug, Clone)]
pub struct DependenciesConfig {
    /// Python packages.
    pub pip: Vec<String>,
    pub pip_source: PipSource,
    pub python_installer: PythonInstaller,
    /// Node.js packages.
    pub npm: Vec<String>,
    /// Ruby gems.
    pub gem: Vec<String>,
    /// System packages (checked, not installed).
    pub system: Vec<String>,
    /// Wrap package-manager invocations with `eatmydata`.
    pub eatmydata: bool,
}

impl Default for DependenciesConfig {
    fn default() -> (r: Self)
        ensures
            r.pip@.len() == 0,
            r.pip_source == PipSource::UvLock,
            r.python_installer == PythonInstaller::Uv,
            r.npm@.len() == 0,
            r.gem@.len() == 0,
            r.system@.len() == 0,
            !r.eatmydata,
    {
        DependenciesConfig {
            pip: Vec::new(),
            pip_source: PipSource::UvLock,
            python_installer: PythonInstaller::Uv,
            npm: Vec::new(),
            gem: Vec::new(),
            system: Vec::new(),
            eatmydata: false,
        }
    }
}

/// `str::to_lowercase`: the Unicode lowercase of `s`. A function of the
/// text alone.
pub uninterp spec fn lowercase(s: Seq<char>) -> Seq<char>;

/// The lowercase of an ASCII character: `A`..`Z` become `a`..`z`, every
/// other character stays as it is.
pub open spec fn ascii_lower(c: char) -> char {
    let n = c as u32;
    if 65 <= n && n <= 90 {
        (n + 32) as char
    } else {
        c
    }
}

/// Every character of `s` is ASCII.
pub open spec fn all_ascii(s: Seq<char>) -> bool {
    forall|i: int| 0 <= i < s.len() ==> (#[trigger] s[i] as u32) < 128
}

/// std's `str::to_lowercase`. Its result is named as a function of the
/// text; on ASCII text it is the ASCII lowercase, character by character
/// (an uppercase ASCII letter has its ASCII lowercase as its Unicode
/// lowercase, and every other ASCII character has no lowercase mapping).
#[verifier::external_body]
fn to_lowercase(s: &str) -> (r: String)
    ensures
        r@ == lowercase(s@),
        all_ascii(s@) ==> r@ == s@.map_values(|c: char| ascii_lower(c)),
{
    s.to_lowercase()
}

/// `char::to_lowercase`: the characters of the Unicode lowercase of `c`.
pub uninterp spec fn char_lowercase(c: char) -> Seq<char>;

/// std's `char::to_lowercase`, collected. Its result is named as a
/// function of the character; for an ASCII character it is that
/// character's ASCII lowercase alone.
#[verifier::external_body]
fn char_to_lowercase(c: char) -> (r: Vec<char>)
    ensures
        r@ == char_lowercase(c),
        (c as u32) < 128 ==> r@ == seq![ascii_lower(c)],
{
    c.to_lowercase().collect()
}

/// A line of `uv export` output that is a requirement: not blank, not a
/// comment, not an option.
pub open spec fn is_requirement_line(t: Seq<char>) -> bool {
    t.len() > 0 && t[0] != '#' && t[0] != '-'
}

/// The requirements among the first `m` trimmed lines.
pub open spec fn uv_requirements(lines: Seq<Seq<char>>, m: int) -> Seq<Seq<char>>
    decreases m,
{
    if m <= 0 {
        Seq::empty()
    } else if is_requirement_line(trim_spec(lines[m - 1])) {
        uv_requirements(lines, m - 1).push(trim_spec(lines[m - 1]))
    } else {
        uv_requirements(lines, m - 1)
    }
}

/// The requirements in the output of `uv export --format
/// requirements.txt`, one per line, trimmed, environment markers included;
/// blank, comment and option lines are dropped.
pub fn parse_uv_export(text: &str) -> (r: Vec<String>)
    ensures
        strs(r@) == uv_requirements(lines_of(text@), lines_of(text@).len() as int),
{
    let lines: Vec<String> = split_lines(text);
    let ghost ls = lines_of(text@);
    let mut r: Vec<String> = Vec::new();
    let mut i: usize = 0;
    while i < lines.len()
        invariant
            0 <= i <= lines.len(),
            strs(lines@) == ls,
            strs(r@) == uv_requirements(ls, i as int),
        decreases lines.len() - i,
    {
        proof {
            assert(ls[i as int] == lines@[i as int]@);
        }
        let t: String = trim(lines[i].as_str());
        let tc = chars_of(t.as_str());
        if tc.len() > 0 && tc[0] != '#' && tc[0] != '-' {
            let ghost r0 = strs(r@);
            r.push(t);
            proof {
                assert(strs(r@) =~= r0.push(trim_spec(ls[i as int])));
            }
        }
        i = i + 1;
    }
    r
}

/// The first position at or after `k` where `s` holds `c`.
pub open spec fn find_char(s: Seq<char>, c: char, k: int) -> Option<nat>
    decreases s.len() - k,
{
    if k < 0 || k >= s.len() {
        None
    } else if s[k] == c {
        Some(k as nat)
    } else {
        find_char(s, c, k + 1)
    }
}

fn find_char_exec(s: &Vec<char>, c: char, from: usize) -> (r: Option<usize>)
    requires
        from <= s.len(),
    ensures
        r matches Some(i) ==> find_char(s@, c, from as int) == Some(i as nat) && from <= i < s.len() && s@[i as int] == c,
        r is None ==> find_char(s@, c, from as int) is None,
{
    let mut i: usize = from;
    while i < s.len()
        invariant
            from <= i <= s.len(),
            find_char(s@, c, from as int) == find_char(s@, c, i as int),
        decreases s.len() - i,
    {
        if s[i] == c {
            return Some(i);
        }
        i = i + 1;
    }
    None
}

/// Reading `s` left to right: the comma-separated pieces completed so far
/// and the piece being read.
pub open spec fn comma_scan(s: Seq<char>) -> (Seq<Seq<char>>, Seq<char>)
    decreases s.len(),
{
    if s.len() == 0 {
        (Seq::empty(), Seq::empty())
    } else {
        let prev = comma_scan(s.drop_last());
        if s.last() == ',' {
            (prev.0.push(prev.1), Seq::empty())
        } else {
            (prev.0, prev.1.push(s.last()))
        }
    }
}

/// `str::split(',')`: the pieces of `s` between commas.
pub open spec fn comma_pieces(s: Seq<char>) -> Seq<Seq<char>> {
    let scan = comma_scan(s);
    scan.0.push(scan.1)
}

/// The extras named inside the first `[...]` of a requirement, each
/// trimmed and lowercased, empty ones dropped, in the order written.
pub open spec fn extras_list(req: Seq<char>) -> Seq<Seq<char>> {
    match find_char(req, '[', 0) {
        None => Seq::empty(),
        Some(open) => match find_char(req, ']', open as int) {
            None => Seq::empty(),
            Some(close) => kept_extras(
                comma_pieces(req.subrange(open + 1 as int, close as int)),
                comma_pieces(req.subrange(open + 1 as int, close as int)).len() as int,
            ),
        },
    }
}

/// The first `m` pieces, trimmed and lowercased, empty ones dropped.
pub open spec fn kept_extras(pieces: Seq<Seq<char>>, m: int) -> Seq<Seq<char>>
    decreases m,
{
    if m <= 0 {
        Seq::empty()
    } else {
        let e = lowercase(trim_spec(pieces[m - 1]));
        if e.len() > 0 {
            kept_extras(pieces, m - 1).push(e)
        } else {
            kept_extras(pieces, m - 1)
        }
    }
}

/// The normalized extras of a requirement: sorted and comma-joined.
pub open spec fn extras_text(req: Seq<char>) -> Seq<char> {
    join(sorted_of(extras_list(req), false), ","@)
}

/// The normalized extras of a requirement string (`gtts` for
/// `manim-voiceover[gtts]`), sorted and comma-joined so that equivalent
/// lists compare equal; empty when the requirement names no extras.
pub fn requirement_extras(requirement: &str) -> (r: String)
    ensures
        r@ == extras_text(requirement@),
{
    let cs = chars_of(requirement);
    let open: usize = match find_char_exec(&cs, '[', 0) {
        Some(i) => i,
        None => {
            let e: Vec<String> = Vec::new();
            let s = sort_strings(&e, false);
            proof {
                assert(strs(e@) =~= Seq::<Seq<char>>::empty());
            }
            return join_strings(&s, ",");
        },
    };
    let close: usize = match find_char_exec(&cs, ']', open) {
        Some(i) => i,
        None => {
            let e: Vec<String> = Vec::new();
            let s = sort_strings(&e, false);
            proof {
                assert(strs(e@) =~= Seq::<Seq<char>>::empty());
            }
            return join_strings(&s, ",");
        },
    };
    let ghost mid = cs@.subrange(open + 1, close as int);
    let mut pieces: Vec<String> = Vec::new();
    let mut start: usize = open + 1;
    let mut i: usize = open + 1;
    proof {
        assert(mid.take(0) =~= Seq::<char>::empty());
        assert(cs@.subrange(start as int, i as int) =~= Seq::<char>::empty());
    }
    while i < close
        invariant
            open < close,
            close < cs.len(),
            open + 1 <= start <= i <= close,
            mid == cs@.subrange(open + 1, close as int),
            comma_scan(mid.take(i - open - 1)) == (strs(pieces@), cs@.subrange(start as int, i as int)),
        decreases close - i,
    {
        proof {
            assert(mid.take(i - open) =~= mid.take(i - open - 1).push(cs@[i as int]));
            assert(mid.take(i - open).drop_last() =~= mid.take(i - open - 1));
        }
        if cs[i] == ',' {
            let ghost p0 = strs(pieces@);
            pieces.push(string_between(&cs, start, i));
            proof {
                assert(strs(pieces@) =~= p0.push(cs@.subrange(start as int, i as int)));
            }
            start = i + 1;
            proof {
                assert(cs@.subrange(start as int, i + 1) =~= Seq::<char>::empty());
            }
        } else {
            proof {
                assert(cs@.subrange(start as int, i + 1) =~= cs@.subrange(start as int, i as int).push(cs@[i as int]));
            }
        }
        i = i + 1;
    }
    let ghost p0 = strs(pieces@);
    pieces.push(string_between(&cs, start, close));
    proof {
        assert(mid.take(close - open - 1) =~= mid);
        assert(strs(pieces@) =~= comma_pieces(mid));
    }
    let mut kept: Vec<String> = Vec::new();
    let mut k: usize = 0;
    while k < pieces.len()
        invariant
            0 <= k <= pieces.len(),
            strs(pieces@) == comma_pieces(mid),
            strs(kept@) == kept_extras(comma_pieces(mid), k as int),
        decreases pieces.len() - k,
    {
        let t: String = trim(pieces[k].as_str());
        let e: String = to_lowercase(t.as_str());
        proof {
            assert(comma_pieces(mid)[k as int] == pieces@[k as int]@);
        }
        if !e.as_str().is_empty() {
            let ghost k0 = strs(kept@);
            kept.push(e);
            proof {
                assert(strs(kept@) =~= k0.push(lowercase(trim_spec(comma_pieces(mid)[k as int]))));
            }
        }
        k = k + 1;
    }
    proof {
        assert(cs@ == requirement@);
        assert(extras_list(requirement@) == kept_extras(comma_pieces(mid), comma_pieces(mid).len() as int));
    }
    let sorted: Vec<String> = sort_strings(&kept, false);
    join_strings(&sorted, ",")
}

/// A character that ends the name part of a requirement.
pub open spec fn ends_name(c: char) -> bool {
    c == '[' || c == '<' || c == '>' || c == '=' || c == '!' || c == '~' || c == ';' || c == ' ' || c == '\t'
}

/// The name part of a requirement: everything before the first character
/// that ends it.
pub open spec fn name_part(req: Seq<char>) -> Seq<char>
    decreases req.len(),
{
    if req.len() == 0 || ends_name(req[0]) {
        Seq::empty()
    } else {
        seq![req[0]] + name_part(req.drop_first())
    }
}

/// A separator that PEP 503 folds into `-`.
pub open spec fn is_name_sep(c: char) -> bool {
    c == '-' || c == '_' || c == '.'
}

/// The normalization of the first `i` characters of a name, and whether
/// the last of them was a separator.
pub open spec fn norm_scan(name: Seq<char>, i: int) -> (Seq<char>, bool)
    decreases i,
{
    if i <= 0 {
        (Seq::empty(), false)
    } else {
        let prev = norm_scan(name, i - 1);
        let c = name[i - 1];
        if is_name_sep(c) {
            (if prev.1 {
                prev.0
            } else {
                prev.0.push('-')
            }, true)
        } else {
            (prev.0 + char_lowercase(c), false)
        }
    }
}

/// The PEP 503-normalized distribution name of a requirement.
pub open spec fn normalized_name_spec(req: Seq<char>) -> Seq<char> {
    norm_scan(name_part(req), name_part(req).len() as int).0
}

proof fn lemma_name_part(req: Seq<char>, i: int)
    requires
        0 <= i <= req.len(),
        forall|j: int| 0 <= j < i ==> !ends_name(#[trigger] req[j]),
        i == req.len() || ends_name(req[i]),
    ensures
        name_part(req) == req.take(i),
    decreases i,
{
    if i > 0 {
        lemma_name_part(req.drop_first(), i - 1);
        assert(req.take(i) =~= seq![req[0]] + req.drop_first().take(i - 1));
    } else {
        assert(req.take(0) =~= Seq::<char>::empty());
    }
}

/// The PEP 503-normalized distribution name of a requirement string: the
/// name is everything before the first extras bracket, version specifier,
/// environment marker or whitespace; runs of `-`, `_` and `.` become one
/// `-`, and case is folded.
pub fn normalized_distribution_name(requirement: &str) -> (r: String)
    ensures
        r@ == normalized_name_spec(requirement@),
{
    let cs = chars_of(requirement);
    let mut end: usize = 0;
    while end < cs.len() && !(cs[end] == '[' || cs[end] == '<' || cs[end] == '>' || cs[end] == '=' || cs[end] == '!'
        || cs[end] == '~' || cs[end] == ';' || cs[end] == ' ' || cs[end] == '\t')
        invariant
            0 <= end <= cs.len(),
            cs@ == requirement@,
            forall|j: int| 0 <= j < end ==> !ends_name(#[trigger] cs@[j]),
        decreases cs.len() - end,
    {
        end = end + 1;
    }
    proof {
        lemma_name_part(requirement@, end as int);
    }
    let ghost name = requirement@.take(end as int);
    let mut out: Vec<char> = Vec::new();
    let mut prev_sep: bool = false;
    let mut i: usize = 0;
    while i < end
        invariant
            0 <= i <= end,
            end <= cs.len(),
            name == cs@.take(end as int),
            norm_scan(name, i as int) == (out@, prev_sep),
        decreases end - i,
    {
        let c: char = cs[i];
        proof {
            assert(name[i as int] == c);
        }
        if c == '-' || c == '_' || c == '.' {
            if !prev_sep {
                out.push('-');
            }
            prev_sep = true;
        } else {
            let low: Vec<char> = char_to_lowercase(c);
            let mut k: usize = 0;
            let ghost o0 = out@;
            while k < low.len()
                invariant
                    0 <= k <= low.len(),
                    out@ == o0 + low@.take(k as int),
                decreases low.len() - k,
            {
                out.push(low[k]);
                proof {
                    assert(low@.take(k + 1) =~= low@.take(k as int).push(low@[k as int]));
                }
                k = k + 1;
            }
            proof {
                assert(low@.take(low.len() as int) =~= low@);
            }
            prev_sep = false;
        }
        i = i + 1;
    }
    crate::text::string_of(&out)
}

/// The key a requirement is deduplicated by: its normalized name and its
/// normalized extras.
pub open spec fn req_key(req: Seq<char>) -> Seq<char> {
    normalized_name_spec(req) + "["@ + extras_text(req) + "]"@
}

/// The requirements among the first `m` of `reqs` whose key no earlier one
/// had, with the keys seen.
pub open spec fn first_by_key(reqs: Seq<Seq<char>>, m: int) -> (Seq<Seq<char>>, Seq<Seq<char>>)
    decreases m,
{
    if m <= 0 {
        (Seq::empty(), Seq::empty())
    } else {
        let prev = first_by_key(reqs, m - 1);
        let key = req_key(reqs[m - 1]);
        if prev.1.contains(key) {
            prev
        } else {
            (prev.0.push(reqs[m - 1]), prev.1.push(key))
        }
    }
}

/// The requirement at `j` is the first among `reqs` with its key.
pub open spec fn first_with_key(reqs: Seq<Seq<char>>, j: int) -> bool {
    forall|q: int| 0 <= q < j ==> req_key(#[trigger] reqs[q]) != req_key(reqs[j])
}

/// The merge keeps the first requirement of each key, and only those: the
/// kept requirements have distinct keys, one per key met, and each kept
/// one is the first with its key (so a `[dependencies].pip` entry, listed
/// first, wins over a project one).
pub proof fn lemma_first_wins(reqs: Seq<Seq<char>>, m: int)
    requires
        0 <= m <= reqs.len(),
    ensures
        first_by_key(reqs, m).1 == first_by_key(reqs, m).0.map_values(|r: Seq<char>| req_key(r)),
        first_by_key(reqs, m).1.no_duplicates(),
        forall|j: int| 0 <= j < m ==> first_by_key(reqs, m).1.contains(req_key(#[trigger] reqs[j])),
        forall|j: int| 0 <= j < m && first_with_key(reqs, j) ==> first_by_key(reqs, m).0.contains(#[trigger] reqs[j]),
        forall|i: int|
            #![trigger first_by_key(reqs, m).0[i]]
            0 <= i < first_by_key(reqs, m).0.len() ==> exists|j: int|
                0 <= j < m && first_by_key(reqs, m).0[i] == #[trigger] reqs[j] && first_with_key(reqs, j),
    decreases m,
{
    if m > 0 {
        lemma_first_wins(reqs, m - 1);
        let prev = first_by_key(reqs, m - 1);
        let cur = first_by_key(reqs, m);
        let key = req_key(reqs[m - 1]);
        if prev.1.contains(key) {
            assert(!first_with_key(reqs, m - 1)) by {
                let i = choose|i: int| 0 <= i < prev.1.len() && prev.1[i] == key;
                let j = choose|j: int| 0 <= j < m - 1 && prev.0[i] == #[trigger] reqs[j] && first_with_key(reqs, j);
                assert(prev.1[i] == req_key(prev.0[i]));
            }
        } else {
            assert(cur.1 =~= cur.0.map_values(|r: Seq<char>| req_key(r)));
            assert forall|a: int, b: int| 0 <= a < b < cur.1.len() implies cur.1[a] != cur.1[b] by {
                if b == cur.1.len() - 1 {
                    assert(prev.1.contains(cur.1[a]));
                }
            }
            assert forall|j: int| 0 <= j < m && first_with_key(reqs, j) implies cur.0.contains(#[trigger] reqs[j]) by {
                if j < m - 1 {
                    let i = choose|i: int| 0 <= i < prev.0.len() && prev.0[i] == reqs[j];
                    assert(cur.0[i] == reqs[j]);
                } else {
                    assert(cur.0[cur.0.len() - 1] == reqs[j]);
                }
            }
            assert forall|j: int| 0 <= j < m implies cur.1.contains(req_key(#[trigger] reqs[j])) by {
                if j < m - 1 {
                    let i = choose|i: int| 0 <= i < prev.1.len() && prev.1[i] == req_key(reqs[j]);
                    assert(cur.1[i] == req_key(reqs[j]));
                } else {
                    assert(cur.1[cur.1.len() - 1] == key);
                }
            }
            assert(first_with_key(reqs, m - 1)) by {
                assert forall|q: int| 0 <= q < m - 1 implies req_key(#[trigger] reqs[q]) != key by {
                    assert(prev.1.contains(req_key(reqs[q])));
                }
            }
            assert forall|i: int|
                #![trigger cur.0[i]]
                0 <= i < cur.0.len() implies exists|j: int| 0 <= j < m && cur.0[i] == #[trigger] reqs[j] && first_with_key(reqs, j) by {
                if i < prev.0.len() {
                    assert(cur.0[i] == prev.0[i]);
                } else {
                    assert(cur.0[i] == reqs[m - 1]);
                }
            }
        }
    }
}

/// What `effective_pip` decides about the project-declared part of the
/// Python set.
pub open spec fn project_reqs_spec(
    source: PipSource,
    lock_exists: bool,
    lock_pins: Seq<Seq<char>>,
    pyproject_deps: Seq<Seq<char>>,
    pyproject_display: Seq<char>,
    lock_display: Seq<char>,
) -> Result<Seq<Seq<char>>, Seq<char>> {
    match source {
        PipSource::UvLock => if lock_exists {
            Ok(lock_pins)
        } else if pyproject_deps.len() == 0 {
            Ok(Seq::empty())
        } else {
            Err(pyproject_display + " declares Python dependencies but "@ + lock_display
                + " does not exist; run `uv lock` to create it, or set `pip_source = \"pyproject\"` under [dependencies] to resolve the declared names at install time"@)
        },
        PipSource::Pyproject => Ok(pyproject_deps),
    }
}

impl DependenciesConfig {
    /// No package of any manager is declared.
    pub fn is_empty(&self) -> (r: bool)
        ensures
            r == (self.pip@.len() == 0 && self.npm@.len() == 0 && self.gem@.len() == 0 && self.system@.len() == 0),
    {
        self.pip.len() == 0 && self.npm.len() == 0 && self.gem.len() == 0 && self.system.len() == 0
    }

    /// One step of the merge: keeps `req` when no kept requirement had its
    /// key.
    fn keep_first(
        merged: &mut Vec<String>,
        seen: &mut Vec<String>,
        req: &String,
        Ghost(all): Ghost<Seq<Seq<char>>>,
        Ghost(i): Ghost<int>,
    )
        requires
            0 <= i < all.len(),
            all[i] == req@,
            first_by_key(all, i) == (strs(old(merged)@), strs(old(seen)@)),
        ensures
            first_by_key(all, i + 1) == (strs(final(merged)@), strs(final(seen)@)),
    {
        let mut key: String = normalized_distribution_name(req.as_str());
        key.append("[");
        key.append(requirement_extras(req.as_str()).as_str());
        key.append("]");
        if !strings_contain(seen, key.as_str()) {
            let ghost m0 = strs(merged@);
            let ghost s0 = strs(seen@);
            merged.push(req.clone());
            seen.push(key);
            proof {
                assert(strs(merged@) =~= m0.push(all[i]));
                assert(strs(seen@) =~= s0.push(req_key(all[i])));
            }
        }
    }

    /// The `[dependencies].pip` entries followed by `from_project`, each
    /// requirement kept only when no earlier one had the same normalized
    /// name and extras: a declared entry overrides a project one.
    pub fn merge_with_pip(&self, from_project: Vec<String>) -> (r: Vec<String>)
        ensures
            strs(r@) == first_by_key(strs(self.pip@) + strs(from_project@), (self.pip@.len() + from_project@.len()) as int).0,
    {
        let ghost all = strs(self.pip@) + strs(from_project@);
        let mut seen: Vec<String> = Vec::new();
        let mut merged: Vec<String> = Vec::new();
        let mut i: usize = 0;
        while i < self.pip.len()
            invariant
                0 <= i <= self.pip.len(),
                all == strs(self.pip@) + strs(from_project@),
                first_by_key(all, i as int) == (strs(merged@), strs(seen@)),
            decreases self.pip.len() - i,
        {
            proof {
                assert(all[i as int] == self.pip@[i as int]@);
            }
            Self::keep_first(&mut merged, &mut seen, &self.pip[i], Ghost(all), Ghost(i as int));
            i = i + 1;
        }
        let mut j: usize = 0;
        while j < from_project.len()
            invariant
                0 <= j <= from_project.len(),
                all == strs(self.pip@) + strs(from_project@),
                first_by_key(all, self.pip@.len() + j) == (strs(merged@), strs(seen@)),
            decreases from_project.len() - j,
        {
            proof {
                assert(all[self.pip@.len() + j] == from_project@[j as int]@);
            }
            Self::keep_first(&mut merged, &mut seen, &from_project[j], Ghost(all), Ghost(self.pip@.len() + j));
            j = j + 1;
        }
        merged
    }

    /// The full pip requirement list: the declared entries followed by the
    /// project's own Python set, deduplicated. The project set comes from
    /// the lock's pins (`lock_pins`) in uv-lock mode when the lock exists,
    /// from pyproject's declared names (`pyproject_deps`) in pyproject mode;
    /// in uv-lock mode without a lock, declared names are an error naming
    /// both files.
    pub fn effective_pip(
        &self,
        pyproject_display: &str,
        lock_display: &str,
        lock_exists: bool,
        lock_pins: Vec<String>,
        pyproject_deps: Vec<String>,
    ) -> (r: Result<Vec<String>, String>)
        ensures
            match project_reqs_spec(
                self.pip_source,
                lock_exists,
                strs(lock_pins@),
                strs(pyproject_deps@),
                pyproject_display@,
                lock_display@,
            ) {
                Ok(p) => r matches Ok(v) && strs(v@) == first_by_key(strs(self.pip@) + p, (self.pip@.len() + p.len()) as int).0,
                Err(m) => r matches Err(e) && e@ == m,
            },
    {
        let from_project: Vec<String> = match self.pip_source {
            PipSource::UvLock => if lock_exists {
                lock_pins
            } else if pyproject_deps.len() == 0 {
                Vec::new()
            } else {
                let mut m: String = String::from_str(pyproject_display);
                m.append(" declares Python dependencies but ");
                m.append(lock_display);
                m.append(
                    " does not exist; run `uv lock` to create it, or set `pip_source = \"pyproject\"` under [dependencies] to resolve the declared names at install time",
                );
                return Err(m);
            },
            PipSource::Pyproject => pyproject_deps,
        };
        proof {
            if self.pip_source == PipSource::UvLock && !lock_exists {
                assert(strs(from_project@) =~= Seq::<Seq<char>>::empty());
            }
        }
        Ok(self.merge_with_pip(from_project))
    }

    /// `effective_pip` for the uv installer, where the lock's pins come
    /// from `uv export` (`exported`) rather than from the lock file.
    pub fn effective_pip_uv(
        &self,
        pyproject_display: &str,
        lock_display: &str,
        lock_exists: bool,
        exported: Vec<String>,
        pyproject_deps: Vec<String>,
    ) -> (r: Result<Vec<String>, String>)
        ensures
            match project_reqs_spec(
                self.pip_source,
                lock_exists,
                strs(exported@),
                strs(pyproject_deps@),
                pyproject_display@,
                lock_display@,
            ) {
                Ok(p) => r matches Ok(v) && strs(v@) == first_by_key(strs(self.pip@) + p, (self.pip@.len() + p.len()) as int).0,
                Err(m) => r matches Err(e) && e@ == m,
            },
    {
        self.effective_pip(pyproject_display, lock_display, lock_exists, exported, pyproject_deps)
    }
}

/// The value of the entry `key` of a table value; `None` for a value that
/// is not a table or has no such entry.
pub open spec fn table_field(v: TomlValue, key: Seq<char>) -> Option<TomlValue> {
    match v {
        TomlValue::Table(e) => match entry_index(e@, key, 0) {
            Some(i) => Some(e@[i as int].1),
            None => None,
        },
        _ => None,
    }
}

/// The strings of a list, in order, skipping items that are not strings.
pub open spec fn array_strings(items: Seq<TomlValue>) -> Seq<Seq<char>>
    decreases items.len(),
{
    if items.len() == 0 {
        Seq::empty()
    } else {
        array_strings(items.drop_last()) + match items.last() {
            TomlValue::String(x) => seq![x@],
            _ => Seq::empty(),
        }
    }
}

/// The strings of a value that is a list; none for any other value.
pub open spec fn list_strings(v: Option<TomlValue>) -> Seq<Seq<char>> {
    match v {
        Some(TomlValue::Array(items)) => array_strings(items@),
        _ => Seq::empty(),
    }
}

/// The strings of every list among a table's values, table after table in
/// key order.
pub open spec fn lists_of(entries: Seq<(String, TomlValue)>) -> Seq<Seq<char>>
    decreases entries.len(),
{
    if entries.len() == 0 {
        Seq::empty()
    } else {
        lists_of(entries.drop_last()) + list_strings(Some(entries.last().1))
    }
}

/// The strings of every list in a value that is a table.
pub open spec fn table_lists(v: Option<TomlValue>) -> Seq<Seq<char>> {
    match v {
        Some(TomlValue::Table(e)) => lists_of(e@),
        _ => Seq::empty(),
    }
}

/// The Python dependencies a parsed `pyproject.toml` declares, in order:
/// `[project].dependencies`, every list of
/// `[project.optional-dependencies]`, every list of `[dependency-groups]`.
pub open spec fn pyproject_deps_spec(root: TomlValue) -> Seq<Seq<char>> {
    let project = table_field(root, "project"@);
    let from_project = match project {
        Some(p) => list_strings(table_field(p, "dependencies"@)) + table_lists(table_field(p, "optional-dependencies"@)),
        None => Seq::empty(),
    };
    from_project + table_lists(table_field(root, "dependency-groups"@))
}

/// The entry `key` of a table value.
fn field_of<'a>(v: &'a TomlValue, key: &str) -> (r: Option<&'a TomlValue>)
    ensures
        r matches Some(x) ==> table_field(*v, key@) == Some(*x),
        r is None ==> table_field(*v, key@) is None,
{
    match v {
        TomlValue::Table(e) => match find_entry(e, key) {
            Some(i) => Some(&e[i].1),
            None => None,
        },
        _ => None,
    }
}

/// Appends the strings of a list value to `out`.
fn push_list_strings(out: &mut Vec<String>, v: Option<&TomlValue>)
    ensures
        strs(final(out)@) == strs(old(out)@) + list_strings(
            match v {
                Some(x) => Some(*x),
                None => None,
            },
        ),
{
    if let Some(TomlValue::Array(items)) = v {
        let ghost base = strs(out@);
        let mut i: usize = 0;
        while i < items.len()
            invariant
                0 <= i <= items.len(),
                strs(out@) == base + array_strings(items@.take(i as int)),
            decreases items.len() - i,
        {
            proof {
                let t = items@.take(i + 1);
                assert(t.drop_last() =~= items@.take(i as int));
                assert(t.last() == items@[i as int]);
            }
            if let TomlValue::String(s) = &items[i] {
                let ghost prev = out@;
                let c: String = s.clone();
                out.push(c);
                proof {
                    let t = items@.take(i + 1);
                    assert(array_strings(t) == array_strings(items@.take(i as int)) + seq![s@]);
                    assert(out@ == prev.push(c));
                    assert(strs(out@) =~= strs(prev).push(s@));
                    assert(strs(out@) =~= base + array_strings(items@.take(i + 1)));
                }
            } else {
                proof {
                    assert(strs(out@) =~= base + array_strings(items@.take(i + 1)));
                }
            }
            i = i + 1;
        }
        proof {
            assert(items@.take(items@.len() as int) =~= items@);
        }
    } else {
        proof {
            assert(strs(out@) =~= strs(old(out)@) + Seq::<Seq<char>>::empty());
        }
    }
}

/// Appends the strings of every list of a table value to `out`.
fn push_table_lists(out: &mut Vec<String>, v: Option<&TomlValue>)
    ensures
        strs(final(out)@) == strs(old(out)@) + table_lists(
            match v {
                Some(x) => Some(*x),
                None => None,
            },
        ),
{
    if let Some(TomlValue::Table(e)) = v {
        let ghost base = strs(out@);
        let mut i: usize = 0;
        while i < e.len()
            invariant
                0 <= i <= e.len(),
                strs(out@) == base + lists_of(e@.take(i as int)),
            decreases e.len() - i,
        {
            proof {
                let t = e@.take(i + 1);
                assert(t.drop_last() =~= e@.take(i as int));
                assert(t.last() == e@[i as int]);
            }
            push_list_strings(out, Some(&e[i].1));
            proof {
                assert(strs(out@) =~= base + lists_of(e@.take(i + 1)));
            }
            i = i + 1;
        }
        proof {
            assert(e@.take(e@.len() as int) =~= e@);
        }
    } else {
        proof {
            assert(strs(out@) =~= strs(old(out)@) + Seq::<Seq<char>>::empty());
        }
    }
}

/// `Failed to parse PATH: ERROR`.
pub open spec fn parse_failure(display: Seq<char>, err: Seq<char>) -> Seq<char> {
    "Failed to parse "@ + display + ": "@ + err
}

fn parse_failure_message(display: &str, err: &str) -> (r: String)
    ensures
        r@ == parse_failure(display@, err@),
{
    let mut m: String = String::from_str("Failed to parse ");
    m.append(display);
    m.append(": ");
    m.append(err);
    m
}

/// The Python dependencies a `pyproject.toml` declares, read from its text
/// (`None` when the file does not exist, which declares none): the
/// `[project].dependencies` list, every list of
/// `[project.optional-dependencies]`, and every list of
/// `[dependency-groups]`, in order, keeping only the string items (an
/// `{include-group = ...}` table is skipped: the included group is read on
/// its own). Text that is not TOML is a configuration error naming the
/// file.
pub fn pyproject_python_deps(content: Option<&str>, pyproject_display: &str) -> (r: Result<Vec<String>, RsconstructError>)
    ensures
        content is None ==> (r matches Ok(v) && v@.len() == 0),
        content matches Some(c) ==> match toml_parse(c@) {
            Ok(root) => (r matches Ok(v) && strs(v@) == pyproject_deps_spec(root)),
            Err(e) => (r matches Err(err) && err.exit_code == RsconstructExitCode::ConfigError
                && err.message@ == parse_failure(pyproject_display@, e)),
        },
{
    let text: &str = match content {
        None => {
            return Ok(Vec::new());
        },
        Some(c) => c,
    };
    let root: TomlValue = match parse_toml_document(text) {
        Ok(v) => v,
        Err(e) => {
            let m = parse_failure_message(pyproject_display, e.as_str());
            return Err(config_error(m.as_str()));
        },
    };
    let mut deps: Vec<String> = Vec::new();
    let project = field_of(&root, "project");
    if let Some(p) = project {
        push_list_strings(&mut deps, field_of(p, "dependencies"));
        push_table_lists(&mut deps, field_of(p, "optional-dependencies"));
    }
    let ghost mid = strs(deps@);
    push_table_lists(&mut deps, field_of(&root, "dependency-groups"));
    proof {
        if project is None {
            assert(mid =~= Seq::<Seq<char>>::empty());
        }
    }
    Ok(deps)
}

/// The string value of the entry `key` of a table value.
pub open spec fn str_field(v: TomlValue, key: Seq<char>) -> Option<Seq<char>> {
    match table_field(v, key) {
        Some(TomlValue::String(s)) => Some(s@),
        _ => None,
    }
}

/// The `source` table of a lock entry has a `key` entry.
pub open spec fn source_has(pkg: TomlValue, key: Seq<char>) -> bool {
    match table_field(pkg, "source"@) {
        Some(TomlValue::Table(t)) => entry_keys_of(t@).contains(key),
        _ => false,
    }
}

/// What one `[[package]]` entry of a `uv.lock` contributes: its pin
/// `name==version`, nothing for the project itself (an `editable` or
/// `virtual` source), or the message of what is wrong with it.
pub open spec fn pin_of(lock: Seq<char>, pkg: TomlValue) -> Result<Option<Seq<char>>, Seq<char>> {
    match str_field(pkg, "name"@) {
        None => Err(lock + ": package entry without a name"@),
        Some(name) => if source_has(pkg, "editable"@) || source_has(pkg, "virtual"@) {
            Ok(None)
        } else if !source_has(pkg, "registry"@) {
            Err(lock + ": package "@ + name
                + " has a source kind install-deps does not support (only registry packages and the project itself are understood)"@)
        } else {
            match str_field(pkg, "version"@) {
                None => Err(lock + ": package "@ + name + " has no version"@),
                Some(version) => Ok(Some(name + "=="@ + version)),
            }
        },
    }
}

/// The pins of the entries, in order, or the message of the first entry
/// that is wrong.
pub open spec fn pins_spec(lock: Seq<char>, pkgs: Seq<TomlValue>) -> Result<Seq<Seq<char>>, Seq<char>>
    decreases pkgs.len(),
{
    if pkgs.len() == 0 {
        Ok(Seq::empty())
    } else {
        match pins_spec(lock, pkgs.drop_last()) {
            Err(e) => Err(e),
            Ok(p) => match pin_of(lock, pkgs.last()) {
                Err(e) => Err(e),
                Ok(None) => Ok(p),
                Ok(Some(x)) => Ok(p.push(x)),
            },
        }
    }
}

/// The `[[package]]` entries of a parsed lock.
pub open spec fn lock_packages(root: TomlValue) -> Seq<TomlValue> {
    match table_field(root, "package"@) {
        Some(TomlValue::Array(items)) => items@,
        _ => Seq::empty(),
    }
}

/// An entry that is wrong stays the verdict however many entries follow.
proof fn lemma_pins_error_stays(lock: Seq<char>, pkgs: Seq<TomlValue>, k: int)
    requires
        0 <= k <= pkgs.len(),
        pins_spec(lock, pkgs.take(k)) is Err,
    ensures
        pins_spec(lock, pkgs) == pins_spec(lock, pkgs.take(k)),
    decreases pkgs.len() - k,
{
    if k == pkgs.len() {
        assert(pkgs.take(k) =~= pkgs);
    } else {
        assert(pkgs.take(k + 1).drop_last() =~= pkgs.take(k));
        lemma_pins_error_stays(lock, pkgs, k + 1);
    }
}

/// The string value of the entry `key` of a table value.
fn str_field_of<'a>(v: &'a TomlValue, key: &str) -> (r: Option<&'a String>)
    ensures
        r matches Some(s) ==> str_field(*v, key@) == Some(s@),
        r is None ==> str_field(*v, key@) is None,
{
    match field_of(v, key) {
        Some(TomlValue::String(s)) => Some(s),
        _ => None,
    }
}

/// Whether the `source` table of a lock entry has a `key` entry.
fn has_source(pkg: &TomlValue, key: &str) -> (r: bool)
    ensures
        r == source_has(*pkg, key@),
{
    match field_of(pkg, "source") {
        Some(TomlValue::Table(t)) => table_contains(t, key),
        _ => false,
    }
}

/// What one lock entry contributes (see `pin_of`).
fn pin_for(lock_display: &str, pkg: &TomlValue) -> (r: Result<Option<String>, String>)
    ensures
        match pin_of(lock_display@, *pkg) {
            Ok(None) => r matches Ok(None),
            Ok(Some(x)) => (r matches Ok(Some(s)) && s@ == x),
            Err(m) => (r matches Err(e) && e@ == m),
        },
{
    let name: &String = match str_field_of(pkg, "name") {
        None => {
            let mut m: String = String::from_str(lock_display);
            m.append(": package entry without a name");
            return Err(m);
        },
        Some(n) => n,
    };
    if has_source(pkg, "editable") || has_source(pkg, "virtual") {
        return Ok(None);
    }
    if !has_source(pkg, "registry") {
        let mut m: String = String::from_str(lock_display);
        m.append(": package ");
        m.append(name.as_str());
        m.append(
            " has a source kind install-deps does not support (only registry packages and the project itself are understood)",
        );
        return Err(m);
    }
    match str_field_of(pkg, "version") {
        None => {
            let mut m: String = String::from_str(lock_display);
            m.append(": package ");
            m.append(name.as_str());
            m.append(" has no version");
            Err(m)
        },
        Some(version) => {
            let mut p: String = name.clone();
            p.append("==");
            p.append(version.as_str());
            Ok(Some(p))
        },
    }
}

/// The pinned Python package closure of a `uv.lock`, read from its text:
/// `name==version` for every `[[package]]` entry in the lock's order,
/// skipping the project itself (a source that is `editable` or `virtual`).
/// Text that is not TOML is a configuration error; an entry without a name,
/// with a source other than a registry, or without a version is an error
/// naming the lock (and the package).
pub fn uv_lock_pinned_deps(content: &str, lock_display: &str) -> (r: Result<Vec<String>, ErrorChain>)
    ensures
        match toml_parse(content@) {
            Err(e) => r is Err && r->Err_0.links@.len() == 1 && r->Err_0.links@[0] is Typed
                && r->Err_0.links@[0]->Typed_0.exit_code == RsconstructExitCode::ConfigError
                && r->Err_0.links@[0]->Typed_0.message@ == parse_failure(lock_display@, e),
            Ok(root) => match pins_spec(lock_display@, lock_packages(root)) {
                Ok(p) => (r matches Ok(v) && strs(v@) == p),
                Err(m) => r is Err && r->Err_0.links@.len() == 1 && r->Err_0.links@[0] is Message
                    && r->Err_0.links@[0]->Message_0@ == m,
            },
        },
{
    let root: TomlValue = match parse_toml_document(content) {
        Ok(v) => v,
        Err(e) => {
            let m = parse_failure_message(lock_display, e.as_str());
            return Err(ErrorChain::from_error(config_error(m.as_str())));
        },
    };
    let empty: Vec<TomlValue> = Vec::new();
    let packages: &Vec<TomlValue> = match field_of(&root, "package") {
        Some(TomlValue::Array(items)) => items,
        _ => &empty,
    };
    proof {
        assert(packages@ =~= lock_packages(root));
    }
    let ghost pkgs = packages@;
    let mut pins: Vec<String> = Vec::new();
    let mut i: usize = 0;
    proof {
        assert(pkgs.take(0) =~= Seq::<TomlValue>::empty());
        assert(strs(pins@) =~= Seq::<Seq<char>>::empty());
    }
    while i < packages.len()
        invariant
            0 <= i <= packages.len(),
            pkgs == packages@,
            toml_parse(content@) == Ok::<TomlValue, Seq<char>>(root),
            pkgs == lock_packages(root),
            pins_spec(lock_display@, pkgs.take(i as int)) == Ok::<Seq<Seq<char>>, Seq<char>>(strs(pins@)),
        decreases packages.len() - i,
    {
        proof {
            let t = pkgs.take(i + 1);
            assert(t.drop_last() =~= pkgs.take(i as int));
            assert(t.last() == pkgs[i as int]);
        }
        match pin_for(lock_display, &packages[i]) {
            Err(m) => {
                proof {
                    lemma_pins_error_stays(lock_display@, pkgs, i + 1);
                }
                return Err(ErrorChain::message(m.as_str()));
            },
            Ok(None) => {},
            Ok(Some(p)) => {
                let ghost prev = pins@;
                pins.push(p);
                proof {
                    assert(strs(pins@) =~= strs(prev).push(p@));
                }
            },
        }
        i = i + 1;
    }
    proof {
        assert(pkgs.take(pkgs.len() as int) =~= pkgs);
    }
    Ok(pins)
}

} // verus!
