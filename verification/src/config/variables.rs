//! The `[vars]` section of the project file: its variables are substituted
//! into the rest of the text, and the section itself is blanked out.
//!
//! Substitution runs on the raw text before field positions are recorded,
//! so it must never change which line a field is on: the section's lines
//! are blanked rather than deleted, and substituted values are written on
//! one line.

use vstd::prelude::*;
use crate::config::toml_value::{TomlValue, entry_index, entry_keys_of, find_entry, inline_entries, inline_items, inline_spec, parse_toml, toml_document, value_to_toml_inline, vars_table};
use crate::exit_code::{RsconstructError, RsconstructExitCode};
use crate::text::{string_of, opt_str, occurs_at, str_eq, chars_of, is_prefix, is_whitespace, join, join_strings, lines_of, line_scan, split_lines, strip_cr, str_starts_with, string_between, strs, trim, trim_end, trim_end_spec, trim_spec, trim_start, trim_start_spec};

verus! {

/// Everything before the first `#` of `t` (all of `t` when it has none).
pub open spec fn before_hash(t: Seq<char>) -> Seq<char>
    decreases t.len(),
{
    if t.len() == 0 {
        t
    } else if t[0] == '#' {
        Seq::empty()
    } else {
        seq![t[0]] + before_hash(t.drop_first())
    }
}

/// A trimmed line that opens a section: `[name]`, maybe followed by a
/// comment.
pub open spec fn is_section_header_spec(t: Seq<char>) -> bool {
    &&& t.len() > 0
    &&& t[0] == '['
    &&& {
        let h = trim_end_spec(before_hash(t));
        h.len() > 0 && h.last() == ']'
    }
}

/// A trimmed line that opens the `[vars]` section, maybe followed by a
/// comment.
pub open spec fn is_vars_header_spec(t: Seq<char>) -> bool {
    &&& is_prefix(t, "[vars]"@)
    &&& {
        let rest = trim_start_spec(t.skip(6));
        rest.len() == 0 || rest[0] == '#'
    }
}

/// The lines after blanking: each of the first `m` lines of `ls`, or an
/// empty line when it belongs to the `[vars]` section (its header
/// included), with whether the section is still open.
pub open spec fn blank_scan(ls: Seq<Seq<char>>, m: int) -> (Seq<Seq<char>>, bool)
    decreases m,
{
    if m <= 0 {
        (Seq::empty(), false)
    } else {
        let prev = blank_scan(ls, m - 1);
        let t = trim_spec(ls[m - 1]);
        if is_vars_header_spec(t) {
            (prev.0.push(Seq::empty()), true)
        } else {
            let open = prev.1 && !is_section_header_spec(t);
            (prev.0.push(if open {
                Seq::empty()
            } else {
                ls[m - 1]
            }), open)
        }
    }
}

/// The lines of `content` with the `[vars]` section blanked.
pub open spec fn blanked_lines(content: Seq<char>) -> Seq<Seq<char>> {
    blank_scan(lines_of(content), lines_of(content).len() as int).0
}

/// `content` with the `[vars]` section blanked: its lines joined by
/// newlines, with a final newline.
pub open spec fn remove_vars_spec(content: Seq<char>) -> Seq<char> {
    join(blanked_lines(content), "\n"@) + "\n"@
}

fn before_hash_exec(t: &str) -> (r: String)
    ensures
        r@ == before_hash(t@),
{
    let cs = chars_of(t);
    let mut i: usize = 0;
    while i < cs.len() && cs[i] != '#'
        invariant
            0 <= i <= cs.len(),
            cs@ == t@,
            forall|j: int| 0 <= j < i ==> cs@[j] != '#',
        decreases cs.len() - i,
    {
        i = i + 1;
    }
    proof {
        lemma_before_hash(t@, i as int);
    }
    string_between(&cs, 0, i)
}

proof fn lemma_before_hash(t: Seq<char>, i: int)
    requires
        0 <= i <= t.len(),
        forall|j: int| 0 <= j < i ==> t[j] != '#',
        i == t.len() || t[i] == '#',
    ensures
        before_hash(t) == t.take(i),
    decreases i,
{
    if i > 0 {
        lemma_before_hash(t.drop_first(), i - 1);
        assert(t.take(i) =~= seq![t[0]] + t.drop_first().take(i - 1));
    } else {
        assert(t.take(0) =~= Seq::<char>::empty());
    }
}

/// Whether a trimmed line opens a section.
fn is_section_header(trimmed: &str) -> (r: bool)
    ensures
        r == is_section_header_spec(trimmed@),
{
    if !str_starts_with(trimmed, "[") {
        proof {
            reveal_strlit("[");
            if trimmed@.len() > 0 && trimmed@[0] == '[' {
                assert(trimmed@.take(1) =~= "["@);
            }
        }
        return false;
    }
    proof {
        reveal_strlit("[");
        assert(trimmed@.take(1)[0] == "["@[0]);
    }
    let head: String = before_hash_exec(trimmed);
    let h: String = trim_end(head.as_str());
    let hc = chars_of(h.as_str());
    hc.len() > 0 && hc[hc.len() - 1] == ']'
}

/// Whether a trimmed line opens the `[vars]` section.
fn is_vars_header(trimmed: &str) -> (r: bool)
    ensures
        r == is_vars_header_spec(trimmed@),
{
    if !str_starts_with(trimmed, "[vars]") {
        return false;
    }
    proof {
        reveal_strlit("[vars]");
    }
    let cs = chars_of(trimmed);
    let after: String = string_between(&cs, 6, cs.len());
    proof {
        assert(after@ =~= trimmed@.skip(6));
    }
    let rest: String = trim_start(after.as_str());
    let rc = chars_of(rest.as_str());
    rc.len() == 0 || rc[0] == '#'
}

/// Blanks the `[vars]` section of `content`: its header and every line up
/// to the next section header become empty lines, so every other line keeps
/// its line number. The lines are joined by newlines, with a final newline.
pub fn remove_vars_section(content: &str) -> (r: String)
    ensures
        r@ == remove_vars_spec(content@),
{
    let lines: Vec<String> = split_lines(content);
    let ghost ls = lines_of(content@);
    let mut out: Vec<String> = Vec::new();
    let mut in_vars: bool = false;
    let mut i: usize = 0;
    while i < lines.len()
        invariant
            0 <= i <= lines.len(),
            strs(lines@) == ls,
            blank_scan(ls, i as int) == (strs(out@), in_vars),
        decreases lines.len() - i,
    {
        let line: &str = lines[i].as_str();
        proof {
            assert(ls[i as int] == line@);
        }
        let trimmed: String = trim(line);
        let ghost o0 = strs(out@);
        if is_vars_header(trimmed.as_str()) {
            in_vars = true;
            out.push(String::new());
            proof {
                assert(strs(out@) =~= o0.push(Seq::<char>::empty()));
            }
        } else {
            if in_vars && is_section_header(trimmed.as_str()) {
                in_vars = false;
            }
            if in_vars {
                out.push(String::new());
                proof {
                    assert(strs(out@) =~= o0.push(Seq::<char>::empty()));
                }
            } else {
                out.push(String::from_str(line));
                proof {
                    assert(strs(out@) =~= o0.push(line@));
                }
            }
        }
        i = i + 1;
    }
    let mut r: String = join_strings(&out, "\n");
    r.append("\n");
    r
}

/// The state of the comment scan: inside a `"..."` string, inside a
/// `'...'` string, just after a backslash in a basic string, and where the
/// comment starts, once found.
pub struct CommentScan {
    pub basic: bool,
    pub literal: bool,
    pub escaped: bool,
    pub cut: Option<nat>,
}

/// The comment scan after the first `i` characters of `line`.
pub open spec fn comment_scan(line: Seq<char>, i: int) -> CommentScan
    decreases i,
{
    if i <= 0 {
        CommentScan { basic: false, literal: false, escaped: false, cut: None }
    } else {
        let st = comment_scan(line, i - 1);
        let c = line[i - 1];
        if st.cut is Some {
            st
        } else if st.escaped {
            CommentScan { escaped: false, ..st }
        } else if c == '\\' && st.basic {
            CommentScan { escaped: true, ..st }
        } else if c == '"' && !st.literal {
            CommentScan { basic: !st.basic, ..st }
        } else if c == '\'' && !st.basic {
            CommentScan { literal: !st.literal, ..st }
        } else if c == '#' && !st.basic && !st.literal {
            CommentScan { cut: Some((i - 1) as nat), ..st }
        } else {
            st
        }
    }
}

/// `line` without its comment: the text before the first `#` that is not
/// inside a string.
pub open spec fn strip_comment_spec(line: Seq<char>) -> Seq<char> {
    match comment_scan(line, line.len() as int).cut {
        Some(p) => line.take(p as int),
        None => line,
    }
}

/// Strips a TOML line comment (a `#` outside any string literal).
pub fn strip_toml_comment(line: &str) -> (r: String)
    ensures
        r@ == strip_comment_spec(line@),
{
    let cs = chars_of(line);
    let mut basic: bool = false;
    let mut literal: bool = false;
    let mut escaped: bool = false;
    let mut i: usize = 0;
    while i < cs.len()
        invariant
            0 <= i <= cs.len(),
            cs@ == line@,
            comment_scan(line@, i as int) == (CommentScan { basic, literal, escaped, cut: None }),
        decreases cs.len() - i,
    {
        let c: char = cs[i];
        if escaped {
            escaped = false;
        } else if c == '\\' && basic {
            escaped = true;
        } else if c == '"' && !literal {
            basic = !basic;
        } else if c == '\'' && !basic {
            literal = !literal;
        } else if c == '#' && !basic && !literal {
            proof {
                lemma_comment_cut_stays(line@, i + 1, line@.len() as int);
            }
            return string_between(&cs, 0, i);
        }
        i = i + 1;
    }
    String::from_str(line)
}

proof fn lemma_comment_cut_stays(line: Seq<char>, i: int, j: int)
    requires
        0 <= i <= j,
        comment_scan(line, i).cut is Some,
    ensures
        comment_scan(line, j) == comment_scan(line, i),
    decreases j - i,
{
    if j > i {
        lemma_comment_cut_stays(line, i, j - 1);
    }
}

/// No line holds a newline.
pub open spec fn newline_free(ls: Seq<Seq<char>>) -> bool {
    forall|i: int, j: int| 0 <= i < ls.len() && 0 <= j < ls[i].len() ==> #[trigger] ls[i][j] != '\n'
}

proof fn lemma_scan_append_plain(s: Seq<char>, t: Seq<char>)
    requires
        forall|j: int| 0 <= j < t.len() ==> t[j] != '\n',
    ensures
        line_scan(s + t) == (line_scan(s).0, line_scan(s).1 + t),
    decreases t.len(),
{
    if t.len() == 0 {
        assert(s + t =~= s);
        assert(line_scan(s).1 + t =~= line_scan(s).1);
    } else {
        lemma_scan_append_plain(s, t.drop_last());
        assert((s + t).drop_last() =~= s + t.drop_last());
        assert(line_scan(s).1 + t =~= (line_scan(s).1 + t.drop_last()).push(t.last()));
    }
}

proof fn lemma_scan_joined(xs: Seq<Seq<char>>)
    requires
        xs.len() >= 1,
        newline_free(xs),
    ensures
        line_scan(join(xs, "\n"@) + "\n"@) == (xs.map_values(|l: Seq<char>| strip_cr(l)), Seq::<char>::empty()),
    decreases xs.len(),
{
    reveal_strlit("\n");
    assert("\n"@ =~= seq!['\n']);
    let last = xs.last();
    assert forall|j: int| 0 <= j < last.len() implies last[j] != '\n' by {
        assert(xs[xs.len() - 1][j] != '\n');
    }
    if xs.len() == 1 {
        lemma_scan_append_plain(Seq::empty(), last);
        assert(Seq::<char>::empty() + last =~= last);
        assert(line_scan(Seq::<char>::empty()) == (Seq::<Seq<char>>::empty(), Seq::<char>::empty()));
        assert((last + "\n"@).drop_last() =~= last);
        assert(Seq::<char>::empty() + last =~= last);
        assert(xs.map_values(|l: Seq<char>| strip_cr(l)) =~= seq![strip_cr(last)]);
    } else {
        let dl = xs.drop_last();
        assert(newline_free(dl)) by {
            assert forall|i: int, j: int| 0 <= i < dl.len() && 0 <= j < dl[i].len() implies #[trigger] dl[i][j] != '\n' by {
                assert(dl[i] == xs[i]);
            }
        }
        lemma_scan_joined(dl);
        let head = join(dl, "\n"@) + "\n"@;
        assert(join(xs, "\n"@) == join(dl, "\n"@) + "\n"@ + last);
        lemma_scan_append_plain(head, last);
        assert(Seq::<char>::empty() + last =~= last);
        assert(join(xs, "\n"@) + "\n"@ =~= head + last + "\n"@);
        assert((head + last + "\n"@).drop_last() =~= head + last);
        assert(xs.map_values(|l: Seq<char>| strip_cr(l)) =~= dl.map_values(|l: Seq<char>| strip_cr(l)).push(strip_cr(last)));
    }
}

proof fn lemma_lines_newline_free(s: Seq<char>)
    ensures
        newline_free(line_scan(s).0),
        forall|j: int| 0 <= j < line_scan(s).1.len() ==> line_scan(s).1[j] != '\n',
        newline_free(lines_of(s)),
    decreases s.len(),
{
    if s.len() > 0 {
        lemma_lines_newline_free(s.drop_last());
        let prev = line_scan(s.drop_last());
        if s.last() == '\n' {
            let l = strip_cr(prev.1);
            assert forall|j: int| 0 <= j < l.len() implies l[j] != '\n' by {
                assert(l[j] == prev.1[j]);
            }
        }
    }
    let scan = line_scan(s);
    if scan.1.len() > 0 {
        let ls = scan.0.push(scan.1);
        assert forall|i: int, j: int| 0 <= i < ls.len() && 0 <= j < ls[i].len() implies #[trigger] ls[i][j] != '\n' by {
            if i < scan.0.len() {
                assert(ls[i] == scan.0[i]);
            }
        }
    }
}

proof fn lemma_blank_scan_shape(ls: Seq<Seq<char>>, m: int)
    requires
        0 <= m <= ls.len(),
        newline_free(ls),
    ensures
        blank_scan(ls, m).0.len() == m,
        newline_free(blank_scan(ls, m).0),
        forall|i: int| 0 <= i < m ==> (#[trigger] blank_scan(ls, m).0[i] == ls[i] || blank_scan(ls, m).0[i].len() == 0),
    decreases m,
{
    if m > 0 {
        lemma_blank_scan_shape(ls, m - 1);
        let prev = blank_scan(ls, m - 1).0;
        let cur = blank_scan(ls, m).0;
        assert forall|i: int| 0 <= i < m implies (#[trigger] cur[i] == ls[i] || cur[i].len() == 0) by {
            if i < m - 1 {
                assert(cur[i] == prev[i]);
            }
        }
        assert forall|i: int, j: int| 0 <= i < cur.len() && 0 <= j < cur[i].len() implies #[trigger] cur[i][j] != '\n' by {
            if i < m - 1 {
                assert(cur[i] == prev[i]);
            } else if cur[i].len() > 0 {
                assert(cur[i] == ls[i]);
            }
        }
    }
}

/// The line-preservation law: blanking the `[vars]` section of non-empty
/// text keeps its number of lines, and each line of the result is the
/// original line or an empty one, at the same position (a line that ended
/// in a bare `\r` loses it).
pub proof fn lemma_remove_vars_keeps_lines(content: Seq<char>)
    requires
        content.len() > 0,
    ensures
        lines_of(remove_vars_spec(content)).len() == lines_of(content).len(),
        lines_of(remove_vars_spec(content)) == blanked_lines(content).map_values(|l: Seq<char>| strip_cr(l)),
        forall|i: int|
            0 <= i < lines_of(content).len() ==> (#[trigger] blanked_lines(content)[i] == lines_of(content)[i]
                || blanked_lines(content)[i].len() == 0),
{
    let ls = lines_of(content);
    lemma_lines_newline_free(content);
    lemma_lines_nonempty(content);
    lemma_blank_scan_shape(ls, ls.len() as int);
    let out = blanked_lines(content);
    lemma_scan_joined(out);
}

proof fn lemma_lines_nonempty(s: Seq<char>)
    requires
        s.len() > 0,
    ensures
        lines_of(s).len() > 0,
    decreases s.len(),
{
    if s.last() != '\n' {
        lemma_scan_tail_nonempty(s);
    }
}

proof fn lemma_scan_tail_nonempty(s: Seq<char>)
    requires
        s.len() > 0,
        s.last() != '\n',
    ensures
        line_scan(s).1.len() > 0,
{
}

/// The names of the variables a parsed document defines: the keys of its
/// `[vars]` table, in key order; none when there is no such table.
pub open spec fn var_names_spec(doc: Option<TomlValue>) -> Seq<Seq<char>> {
    match vars_table(doc) {
        Some(vars) => entry_keys_of(vars),
        None => Seq::empty(),
    }
}

/// The keys of a table.
fn keys_of(entries: &Vec<(String, TomlValue)>) -> (r: Vec<String>)
    ensures
        strs(r@) == entry_keys_of(entries@),
{
    let mut r: Vec<String> = Vec::new();
    let mut i: usize = 0;
    while i < entries.len()
        invariant
            0 <= i <= entries.len(),
            strs(r@) == entry_keys_of(entries@).take(i as int),
        decreases entries.len() - i,
    {
        let ghost r0 = strs(r@);
        r.push(entries[i].0.clone());
        proof {
            assert(strs(r@) =~= r0.push(entries@[i as int].0@));
            assert(entry_keys_of(entries@).take(i + 1) =~= entry_keys_of(entries@).take(i as int).push(entries@[i as int].0@));
        }
        i = i + 1;
    }
    proof {
        assert(entry_keys_of(entries@).take(entries.len() as int) =~= entry_keys_of(entries@));
    }
    r
}

/// The `[vars]` table of a parsed document.
fn vars_of(doc: &Option<TomlValue>) -> (r: Option<&Vec<(String, TomlValue)>>)
    ensures
        r matches Some(v) ==> vars_table(*doc) == Some(v@),
        r is None ==> vars_table(*doc) is None,
{
    match doc {
        Some(TomlValue::Table(top)) => match find_entry(top, "vars") {
            Some(i) => match &top[i].1 {
                TomlValue::Table(vars) => Some(vars),
                _ => None,
            },
            None => None,
        },
        _ => None,
    }
}

/// The names of the variables a parsed document defines.
fn var_names_of(doc: &Option<TomlValue>) -> (r: Vec<String>)
    ensures
        strs(r@) == var_names_spec(*doc),
{
    match vars_of(doc) {
        Some(vars) => keys_of(vars),
        None => Vec::new(),
    }
}

/// The names of the variables the `[vars]` section of `content` defines,
/// read by parsing the text as TOML; none when the text does not parse or
/// has no `[vars]` table.
pub fn extract_var_names(content: &str) -> (r: Vec<String>)
    ensures
        strs(r@) == var_names_spec(toml_document(content@)),
{
    let doc = parse_toml(content);
    var_names_of(&doc)
}

/// The variable a string value refers to: `${name}`, with no `}` in the
/// name.
pub open spec fn var_ref(s: Seq<char>) -> Option<Seq<char>> {
    if s.len() >= 3 && s[0] == '$' && s[1] == '{' && s.last() == '}' && !s.subrange(2, s.len() - 1).contains('}') {
        Some(s.subrange(2, s.len() - 1))
    } else {
        None
    }
}

/// The error for nesting too deep, which a reference cycle causes.
pub open spec fn cycle_msg() -> Seq<char> {
    "Variable reference cycle in [vars] (nesting exceeds 32 levels)"@
}

/// The error for a reference to a variable that is not defined.
pub open spec fn undefined_msg(name: Seq<char>) -> Seq<char> {
    "Undefined variable: ${"@ + name + "}"@
}

/// The inline text of `v` with every variable reference resolved, or the
/// error that stops the resolution.
pub open spec fn resolved_text(v: TomlValue, vars: Seq<(String, TomlValue)>, depth: int) -> Result<Seq<char>, Seq<char>>
    decreases 34 - depth, 0int,
{
    if depth > 32 {
        Err(cycle_msg())
    } else {
        match v {
            TomlValue::String(s) => match var_ref(s@) {
                Some(name) => match entry_index(vars, name, 0) {
                    Some(i) => if 0 <= i < vars.len() {
                        resolved_text(vars[i as int].1, vars, depth + 1)
                    } else {
                        Err(undefined_msg(name))
                    },
                    None => Err(undefined_msg(name)),
                },
                None => Ok(inline_spec(v)),
            },
            TomlValue::Array(items) => match resolved_items(items@, items@.len() as int, vars, depth + 1) {
                Ok(parts) => Ok("["@ + join(parts, ", "@) + "]"@),
                Err(e) => Err(e),
            },
            TomlValue::Table(entries) => match resolved_entries(entries@, entries@.len() as int, vars, depth + 1) {
                Ok(parts) => Ok("{ "@ + join(parts, ", "@) + " }"@),
                Err(e) => Err(e),
            },
            _ => Ok(inline_spec(v)),
        }
    }
}

/// The resolved inline texts of the first `k` items, or the first error.
pub open spec fn resolved_items(items: Seq<TomlValue>, k: int, vars: Seq<(String, TomlValue)>, depth: int) -> Result<
    Seq<Seq<char>>,
    Seq<char>,
>
    decreases 34 - depth, k,
{
    if k <= 0 || k > items.len() || depth > 33 {
        Ok(Seq::empty())
    } else {
        match resolved_items(items, k - 1, vars, depth) {
            Err(e) => Err(e),
            Ok(prev) => match resolved_text(items[k - 1], vars, depth) {
                Err(e) => Err(e),
                Ok(t) => Ok(prev.push(t)),
            },
        }
    }
}

/// The resolved `key = value` texts of the first `k` entries, or the first
/// error.
pub open spec fn resolved_entries(entries: Seq<(String, TomlValue)>, k: int, vars: Seq<(String, TomlValue)>, depth: int) -> Result<
    Seq<Seq<char>>,
    Seq<char>,
>
    decreases 34 - depth, k,
{
    if k <= 0 || k > entries.len() || depth > 33 {
        Ok(Seq::empty())
    } else {
        match resolved_entries(entries, k - 1, vars, depth) {
            Err(e) => Err(e),
            Ok(prev) => match resolved_text(entries[k - 1].1, vars, depth) {
                Err(e) => Err(e),
                Ok(t) => Ok(prev.push(entries[k - 1].0@ + " = "@ + t)),
            },
        }
    }
}

proof fn lemma_inline_items_prefix(a: Seq<TomlValue>, b: Seq<TomlValue>, k: int)
    requires
        0 <= k <= a.len(),
        k <= b.len(),
        a.take(k) == b.take(k),
    ensures
        inline_items(a, k) == inline_items(b, k),
    decreases k,
{
    if k > 0 {
        assert(a.take(k - 1) =~= a.take(k).take(k - 1));
        assert(b.take(k - 1) =~= b.take(k).take(k - 1));
        lemma_inline_items_prefix(a, b, k - 1);
        assert(a[k - 1] == a.take(k)[k - 1]);
        assert(b[k - 1] == b.take(k)[k - 1]);
    }
}

proof fn lemma_inline_entries_prefix(a: Seq<(String, TomlValue)>, b: Seq<(String, TomlValue)>, k: int)
    requires
        0 <= k <= a.len(),
        k <= b.len(),
        forall|i: int| 0 <= i < k ==> (#[trigger] a[i]).0@ == b[i].0@ && inline_spec(a[i].1) == inline_spec(b[i].1),
    ensures
        inline_entries(a, k) == inline_entries(b, k),
    decreases k,
{
    if k > 0 {
        lemma_inline_entries_prefix(a, b, k - 1);
    }
}

proof fn lemma_items_err_stays(items: Seq<TomlValue>, j: int, k: int, vars: Seq<(String, TomlValue)>, depth: int)
    requires
        0 < j <= k <= items.len(),
        depth <= 33,
        resolved_items(items, j, vars, depth) is Err,
    ensures
        resolved_items(items, k, vars, depth) == resolved_items(items, j, vars, depth),
    decreases k - j,
{
    if k > j {
        lemma_items_err_stays(items, j, k - 1, vars, depth);
    }
}

proof fn lemma_entries_err_stays(
    entries: Seq<(String, TomlValue)>,
    j: int,
    k: int,
    vars: Seq<(String, TomlValue)>,
    depth: int,
)
    requires
        0 < j <= k <= entries.len(),
        depth <= 33,
        resolved_entries(entries, j, vars, depth) is Err,
    ensures
        resolved_entries(entries, k, vars, depth) == resolved_entries(entries, j, vars, depth),
    decreases k - j,
{
    if k > j {
        lemma_entries_err_stays(entries, j, k - 1, vars, depth);
    }
}

/// The variable a string value refers to.
fn var_ref_exec(s: &str) -> (r: Option<String>)
    ensures
        opt_str(r) == var_ref(s@),
{
    let cs = chars_of(s);
    if cs.len() < 3 || cs[0] != '$' || cs[1] != '{' || cs[cs.len() - 1] != '}' {
        return None;
    }
    let mut i: usize = 2;
    while i < cs.len() - 1
        invariant
            2 <= i <= cs.len() - 1,
            cs.len() >= 3,
            cs@ == s@,
            forall|j: int| 2 <= j < i ==> cs@[j] != '}',
        decreases cs.len() - 1 - i,
    {
        if cs[i] == '}' {
            proof {
                assert(s@.subrange(2, s@.len() - 1)[i - 2] == '}');
            }
            return None;
        }
        i = i + 1;
    }
    proof {
        let mid = s@.subrange(2, s@.len() - 1);
        assert forall|j: int| 0 <= j < mid.len() implies #[trigger] mid[j] != '}' by {
            assert(mid[j] == cs@[j + 2]);
        }
        assert(!mid.contains('}'));
    }
    Some(string_between(&cs, 2, cs.len() - 1))
}

/// Resolves every `${name}` reference in `value`, following references
/// into other variables; nesting deeper than 32 levels (a cycle) and an
/// undefined name are errors. Only the inline text of the result is
/// stated.
fn resolve_var_value(value: &TomlValue, vars: &Vec<(String, TomlValue)>, depth: usize) -> (r: Result<TomlValue, RsconstructError>)
    requires
        depth <= 33,
    ensures
        match resolved_text(*value, vars@, depth as int) {
            Ok(t) => r matches Ok(v) && inline_spec(v) == t,
            Err(m) => r matches Err(e) && e.message@ == m && e.exit_code == RsconstructExitCode::ConfigError,
        },
    decreases 34 - depth, 0int,
{
    if depth > 32 {
        return Err(RsconstructError::new(
            RsconstructExitCode::ConfigError,
            "Variable reference cycle in [vars] (nesting exceeds 32 levels)",
        ));
    }
    match value {
        TomlValue::String(s) => match var_ref_exec(s.as_str()) {
            Some(name) => match find_entry(vars, name.as_str()) {
                Some(i) => resolve_var_value(&vars[i].1, vars, depth + 1),
                None => {
                    let mut m: String = String::from_str("Undefined variable: ${");
                    m.append(name.as_str());
                    m.append("}");
                    Err(RsconstructError::new(RsconstructExitCode::ConfigError, m.as_str()))
                },
            },
            None => Ok(TomlValue::String(s.clone())),
        },
        TomlValue::Integer(i) => Ok(TomlValue::Integer(*i)),
        TomlValue::Float(t, u) => Ok(TomlValue::Float(t.clone(), u.clone())),
        TomlValue::Boolean(b) => Ok(TomlValue::Boolean(*b)),
        TomlValue::Datetime(t) => Ok(TomlValue::Datetime(t.clone())),
        TomlValue::Array(items) => {
            let mut out: Vec<TomlValue> = Vec::new();
            let mut k: usize = 0;
            while k < items.len()
                invariant
                    0 <= k <= items.len(),
                    depth <= 32,
                    *value == TomlValue::Array(*items),
                    out.len() == k,
                    resolved_items(items@, k as int, vars@, depth + 1) == Ok::<Seq<Seq<char>>, Seq<char>>(
                        inline_items(out@, k as int),
                    ),
                decreases items.len() - k,
            {
                match resolve_var_value(&items[k], vars, depth + 1) {
                    Ok(v) => {
                        let ghost o0 = out@;
                        out.push(v);
                        proof {
                            assert(out@.take(k as int) =~= o0.take(k as int));
                            lemma_inline_items_prefix(out@, o0, k as int);
                        }
                    },
                    Err(e) => {
                        proof {
                            assert(resolved_text(items@[k as int], vars@, depth + 1) is Err);
                            assert(resolved_items(items@, k + 1, vars@, depth + 1)->Err_0 == resolved_text(items@[k as int], vars@, depth + 1)->Err_0);
                            lemma_items_err_stays(items@, k + 1, items@.len() as int, vars@, depth + 1);
                            assert(resolved_items(items@, items@.len() as int, vars@, depth + 1) is Err);
                        }
                        return Err(e);
                    },
                }
                k = k + 1;
            }
            Ok(TomlValue::Array(out))
        },
        TomlValue::Table(entries) => {
            let mut out: Vec<(String, TomlValue)> = Vec::new();
            let mut k: usize = 0;
            while k < entries.len()
                invariant
                    0 <= k <= entries.len(),
                    depth <= 32,
                    *value == TomlValue::Table(*entries),
                    out.len() == k,
                    resolved_entries(entries@, k as int, vars@, depth + 1) == Ok::<Seq<Seq<char>>, Seq<char>>(
                        inline_entries(out@, k as int),
                    ),
                decreases entries.len() - k,
            {
                match resolve_var_value(&entries[k].1, vars, depth + 1) {
                    Ok(v) => {
                        let ghost o0 = out@;
                        out.push((entries[k].0.clone(), v));
                        proof {
                            lemma_inline_entries_prefix(out@, o0, k as int);
                        }
                    },
                    Err(e) => {
                        proof {
                            lemma_entries_err_stays(entries@, k + 1, entries@.len() as int, vars@, depth + 1);
                        }
                        return Err(e);
                    },
                }
                k = k + 1;
            }
            Ok(TomlValue::Table(out))
        },
    }
}

/// `s` with every occurrence of `from` replaced by `to`, left to right,
/// occurrences not overlapping (`str::replace`, for a non-empty `from`).
pub open spec fn replace_all(s: Seq<char>, from: Seq<char>, to: Seq<char>) -> Seq<char>
    decreases s.len(),
{
    if s.len() == 0 || from.len() == 0 {
        s
    } else if occurs_at(s, from, 0) {
        to + replace_all(s.skip(from.len() as int), from, to)
    } else {
        seq![s[0]] + replace_all(s.drop_first(), from, to)
    }
}

/// Replaces every occurrence of `from` in `s` by `to`.
pub fn replace_str(s: &str, from: &str, to: &str) -> (r: String)
    requires
        from@.len() > 0,
    ensures
        r@ == replace_all(s@, from@, to@),
{
    let a = chars_of(s);
    let b = chars_of(from);
    let c = chars_of(to);
    let mut out: Vec<char> = Vec::new();
    let mut i: usize = 0;
    proof {
        assert(s@.skip(0) =~= s@);
    }
    while i < a.len()
        invariant
            0 <= i <= a.len(),
            a@ == s@,
            b@ == from@,
            c@ == to@,
            b.len() > 0,
            out@ + replace_all(s@.skip(i as int), from@, to@) == replace_all(s@, from@, to@),
        decreases a.len() - i,
    {
        let ghost rest = s@.skip(i as int);
        if b.len() <= a.len() - i && crate::text::matches_at(&a, &b, i) {
            proof {
                assert(rest.subrange(0, from@.len() as int) =~= s@.subrange(i as int, i + from@.len()));
                assert(rest.skip(from@.len() as int) =~= s@.skip(i + b.len()));
                assert(out@ + c@ + replace_all(s@.skip(i + b.len()), from@, to@) =~= out@ + (to@ + replace_all(
                    rest.skip(from@.len() as int),
                    from@,
                    to@,
                )));
            }
            let mut k: usize = 0;
            let ghost o0 = out@;
            while k < c.len()
                invariant
                    0 <= k <= c.len(),
                    out@ == o0 + c@.take(k as int),
                decreases c.len() - k,
            {
                out.push(c[k]);
                proof {
                    assert(c@.take(k + 1) =~= c@.take(k as int).push(c@[k as int]));
                }
                k = k + 1;
            }
            proof {
                assert(c@.take(c.len() as int) =~= c@);
            }
            i = i + b.len();
        } else {
            proof {
                if i + b.len() <= a.len() {
                    assert(rest.subrange(0, from@.len() as int) =~= s@.subrange(i as int, i + from@.len()));
                }
                assert(!occurs_at(rest, from@, 0));
                assert(rest.drop_first() =~= s@.skip(i + 1));
                assert(out@.push(a@[i as int]) + replace_all(s@.skip(i + 1), from@, to@) =~= out@ + (seq![rest[0]]
                    + replace_all(rest.drop_first(), from@, to@)));
            }
            out.push(a[i]);
            i = i + 1;
        }
    }
    proof {
        assert(s@.skip(a.len() as int) =~= Seq::<char>::empty());
        assert(out@ + Seq::<char>::empty() =~= out@);
    }
    string_of(&out)
}

/// Capture group 1 of each match of the regular expression `pattern` in
/// `text`, left to right, as `regex::Regex::captures_iter` finds them
/// (`None` for a match in which the group took no part); `None` when the
/// pattern does not compile. A function of the two texts alone.
pub uninterp spec fn regex_group1(pattern: Seq<char>, text: Seq<char>) -> Option<Seq<Option<Seq<char>>>>;

/// The views of a list of optional strings.
pub open spec fn opt_strs(v: Seq<Option<String>>) -> Seq<Option<Seq<char>>> {
    v.map_values(|o: Option<String>| opt_str(o))
}

/// `regex::Regex::new` then `captures_iter`: capture group 1 of every
/// match of `pattern` in `text`, in order (`None` where the group took no
/// part in the match); `None` when the pattern does not compile.
#[verifier::external_body]
fn regex_captures(pattern: &str, text: &str) -> (r: Option<Vec<Option<String>>>)
    ensures
        r matches Some(v) ==> regex_group1(pattern@, text@) == Some(opt_strs(v@)),
        r is None ==> regex_group1(pattern@, text@) is None,
{
    match regex::Regex::new(pattern) {
        Ok(re) => Some(re.captures_iter(text).map(|c| c.get(1).map(|m| m.as_str().to_string())).collect()),
        Err(_) => None,
    }
}

/// The names captured by a list of matches: a match whose group took no
/// part names nothing (the reference patterns below always capture).
pub open spec fn captured_names(v: Seq<Option<Seq<char>>>) -> Seq<Seq<char>>
    decreases v.len(),
{
    if v.len() == 0 {
        Seq::empty()
    } else {
        match v.last() {
            Some(n) => captured_names(v.drop_last()).push(n),
            None => captured_names(v.drop_last()),
        }
    }
}

/// A quoted reference: `"${name}"`, the whole value.
pub open spec fn quoted_ref_pattern() -> Seq<char> {
    "\"\\$\\{([^}]+)\\}\""@
}

/// Any reference: `${name}`.
pub open spec fn any_ref_pattern() -> Seq<char> {
    "\\$\\{([^}]+)\\}"@
}

/// The names of the matches of `pattern` in `line` outside its comment
/// (none when the pattern does not compile).
pub open spec fn refs_in(pattern: Seq<char>, line: Seq<char>) -> Seq<Seq<char>> {
    match regex_group1(pattern, strip_comment_spec(line)) {
        Some(v) => captured_names(v),
        None => Seq::empty(),
    }
}

/// The names of the matches of `pattern` in `line` outside its comment.
fn refs_in_exec(pattern: &str, line: &str) -> (r: Vec<String>)
    ensures
        strs(r@) == refs_in(pattern@, line@),
{
    let code: String = strip_toml_comment(line);
    let caps: Vec<Option<String>> = match regex_captures(pattern, code.as_str()) {
        Some(v) => v,
        None => {
            return Vec::new();
        },
    };
    let mut r: Vec<String> = Vec::new();
    let mut i: usize = 0;
    while i < caps.len()
        invariant
            0 <= i <= caps.len(),
            strs(r@) == captured_names(opt_strs(caps@).take(i as int)),
        decreases caps.len() - i,
    {
        proof {
            assert(opt_strs(caps@).take(i + 1).drop_last() =~= opt_strs(caps@).take(i as int));
            assert(opt_strs(caps@).take(i + 1).last() == opt_str(caps@[i as int]));
        }
        match &caps[i] {
            Some(n) => {
                let ghost before = strs(r@);
                r.push(n.clone());
                proof {
                    assert(strs(r@) =~= before.push(n@));
                }
            },
            None => {},
        }
        i = i + 1;
    }
    proof {
        assert(opt_strs(caps@).take(caps.len() as int) =~= opt_strs(caps@));
    }
    r
}

/// The first of `names`, from `k` on, that is not defined.
pub open spec fn first_missing(names: Seq<Seq<char>>, defined: Seq<Seq<char>>, k: int) -> Option<Seq<char>>
    decreases names.len() - k,
{
    if k < 0 || k >= names.len() {
        None
    } else if !defined.contains(names[k]) {
        Some(names[k])
    } else {
        first_missing(names, defined, k + 1)
    }
}

/// The first quoted reference, from line `m` on, to a variable that is not
/// defined.
pub open spec fn first_undefined(lines: Seq<Seq<char>>, defined: Seq<Seq<char>>, m: int) -> Option<Seq<char>>
    decreases lines.len() - m,
{
    if m < 0 || m >= lines.len() {
        None
    } else {
        match first_missing(refs_in(quoted_ref_pattern(), lines[m]), defined, 0) {
            Some(n) => Some(n),
            None => first_undefined(lines, defined, m + 1),
        }
    }
}

/// The first reference left in the lines from `m` on.
pub open spec fn first_residual(lines: Seq<Seq<char>>, m: int) -> Option<Seq<char>>
    decreases lines.len() - m,
{
    if m < 0 || m >= lines.len() {
        None
    } else if refs_in(any_ref_pattern(), lines[m]).len() > 0 {
        Some(refs_in(any_ref_pattern(), lines[m])[0])
    } else {
        first_residual(lines, m + 1)
    }
}

/// The error for a reference that is only part of a value.
pub open spec fn residual_msg(name: Seq<char>) -> Seq<char> {
    "Unresolved variable reference ${"@ + name
        + "}: a reference must be the entire quoted value (\"${"@ + name
        + "}\"), not embedded in a larger string"@
}

/// What `check_no_residual_references` decides about `content`.
pub open spec fn residual_check(content: Seq<char>) -> Result<(), Seq<char>> {
    match first_residual(lines_of(content), 0) {
        Some(n) => Err(residual_msg(n)),
        None => Ok(()),
    }
}

/// The quoted reference to variable `name`.
pub open spec fn ref_pattern(name: Seq<char>) -> Seq<char> {
    "\"${"@ + name + "}\""@
}

/// `text` after the references to the first `k` variables were replaced by
/// their resolved values, or the first resolution error.
pub open spec fn substituted(text: Seq<char>, vars: Seq<(String, TomlValue)>, k: int) -> Result<Seq<char>, Seq<char>>
    decreases k,
{
    if k <= 0 || k > vars.len() {
        Ok(text)
    } else {
        match substituted(text, vars, k - 1) {
            Err(e) => Err(e),
            Ok(t) => match resolved_text(vars[k - 1].1, vars, 0) {
                Err(e) => Err(e),
                Ok(rep) => Ok(replace_all(t, ref_pattern(vars[k - 1].0@), rep)),
            },
        }
    }
}

/// What `substitute_variables` returns for `content`.
pub open spec fn substitute_spec(content: Seq<char>) -> Result<Seq<char>, Seq<char>> {
    let doc = toml_document(content);
    let defined = var_names_spec(doc);
    match first_undefined(lines_of(content), defined, 0) {
        Some(n) => Err(undefined_msg(n)),
        None => match vars_table(doc) {
            Some(vars) if defined.len() > 0 => match substituted(content, vars, vars.len() as int) {
                Err(e) => Err(e),
                Ok(t) => match residual_check(remove_vars_spec(t)) {
                    Err(e) => Err(e),
                    Ok(_) => Ok(remove_vars_spec(t)),
                },
            },
            _ => match residual_check(content) {
                Err(e) => Err(e),
                Ok(_) => Ok(content),
            },
        },
    }
}

/// Fails on the first `${...}` left outside comments: substitution only
/// replaces whole quoted values, so a reference embedded in a larger
/// string would otherwise pass through as literal text.
pub fn check_no_residual_references(content: &str) -> (r: Result<(), RsconstructError>)
    ensures
        match residual_check(content@) {
            Ok(_) => r is Ok,
            Err(m) => r matches Err(e) && e.message@ == m && e.exit_code == RsconstructExitCode::ConfigError,
        },
{
    let lines: Vec<String> = split_lines(content);
    let ghost ls = lines_of(content@);
    let mut i: usize = 0;
    while i < lines.len()
        invariant
            0 <= i <= lines.len(),
            strs(lines@) == ls,
            ls == lines_of(content@),
            first_residual(ls, 0) == first_residual(ls, i as int),
        decreases lines.len() - i,
    {
        proof {
            assert(ls[i as int] == lines@[i as int]@);
        }
        let found: Vec<String> = refs_in_exec("\\$\\{([^}]+)\\}", lines[i].as_str());
        if found.len() > 0 {
            proof {
                assert(strs(found@)[0] == found@[0]@);
            }
            let name: &str = found[0].as_str();
            let mut m: String = String::from_str("Unresolved variable reference ${");
            m.append(name);
            m.append("}: a reference must be the entire quoted value (\"${");
            m.append(name);
            m.append("}\"), not embedded in a larger string");
            proof {
                assert(strs(found@) == refs_in(any_ref_pattern(), ls[i as int]));
                assert(first_residual(ls, i as int) == Some(name@));
                assert(m@ == residual_msg(name@));
            }
            return Err(RsconstructError::new(RsconstructExitCode::ConfigError, m.as_str()));
        }
        i = i + 1;
    }
    Ok(())
}

/// Substitutes the variables of the `[vars]` section throughout the
/// project file: every quoted reference `"${name}"` (quotes included) is
/// replaced by the variable's value, written inline on one line, after
/// references among variables are resolved; then the section is blanked.
/// A quoted reference to an undefined variable (outside comments), a
/// reference cycle, and a reference left embedded in a larger string are
/// errors.
pub fn substitute_variables(content: &str) -> (r: Result<String, RsconstructError>)
    ensures
        match substitute_spec(content@) {
            Ok(t) => r matches Ok(s) && s@ == t,
            Err(m) => r matches Err(e) && e.message@ == m && e.exit_code == RsconstructExitCode::ConfigError,
        },
{
    let doc: Option<TomlValue> = parse_toml(content);
    let defined: Vec<String> = var_names_of(&doc);
    let lines: Vec<String> = split_lines(content);
    let ghost ls = lines_of(content@);
    let ghost dv = strs(defined@);
    let mut i: usize = 0;
    while i < lines.len()
        invariant
            0 <= i <= lines.len(),
            strs(lines@) == ls,
            ls == lines_of(content@),
            dv == strs(defined@),
            dv == var_names_spec(toml_document(content@)),
            first_undefined(ls, dv, 0) == first_undefined(ls, dv, i as int),
        decreases lines.len() - i,
    {
        proof {
            assert(ls[i as int] == lines@[i as int]@);
        }
        let names: Vec<String> = refs_in_exec("\"\\$\\{([^}]+)\\}\"", lines[i].as_str());
        let ghost nv = strs(names@);
        let mut k: usize = 0;
        while k < names.len()
            invariant
                0 <= k <= names.len(),
                0 <= i < ls.len(),
                ls == lines_of(content@),
                nv == strs(names@),
                nv == refs_in(quoted_ref_pattern(), ls[i as int]),
                dv == strs(defined@),
                dv == var_names_spec(toml_document(content@)),
                first_undefined(ls, dv, 0) == first_undefined(ls, dv, i as int),
                first_missing(nv, dv, 0) == first_missing(nv, dv, k as int),
            decreases names.len() - k,
        {
            let present: bool = crate::text::strings_contain(&defined, names[k].as_str());
            proof {
                assert(nv[k as int] == names@[k as int]@);
            }
            if !present {
                let mut m: String = String::from_str("Undefined variable: ${");
                m.append(names[k].as_str());
                m.append("}");
                proof {
                    assert(first_missing(nv, dv, k as int) == Some(nv[k as int]));
                    assert(first_undefined(ls, dv, i as int) == Some(nv[k as int]));
                }
                return Err(RsconstructError::new(RsconstructExitCode::ConfigError, m.as_str()));
            }
            k = k + 1;
        }
        i = i + 1;
    }
    if defined.len() == 0 {
        match check_no_residual_references(content) {
            Ok(()) => {
                return Ok(String::from_str(content));
            },
            Err(e) => {
                return Err(e);
            },
        }
    }
    let vars: &Vec<(String, TomlValue)> = match vars_of(&doc) {
        Some(v) => v,
        None => {
            proof {
                assert(false);
            }
            return Err(RsconstructError::new(RsconstructExitCode::ConfigError, "Failed to parse TOML for variable extraction"));
        },
    };
    let mut result: String = String::from_str(content);
    let mut j: usize = 0;
    while j < vars.len()
        invariant
            0 <= j <= vars.len(),
            substituted(content@, vars@, j as int) == Ok::<Seq<char>, Seq<char>>(result@),
            vars_table(toml_document(content@)) == Some(vars@),
            var_names_spec(toml_document(content@)).len() > 0,
            first_undefined(lines_of(content@), var_names_spec(toml_document(content@)), 0) is None,
        decreases vars.len() - j,
    {
        let mut pattern: String = String::from_str("\"${");
        pattern.append(vars[j].0.as_str());
        pattern.append("}\"");
        match resolve_var_value(&vars[j].1, vars, 0) {
            Ok(resolved) => {
                let replacement: String = value_to_toml_inline(&resolved);
                proof {
                    reveal_strlit("\"${");
                }
                result = replace_str(result.as_str(), pattern.as_str(), replacement.as_str());
            },
            Err(e) => {
                proof {
                    lemma_substituted_err_stays(content@, vars@, j + 1, vars@.len() as int);
                }
                return Err(e);
            },
        }
        j = j + 1;
    }
    let out: String = remove_vars_section(result.as_str());
    match check_no_residual_references(out.as_str()) {
        Ok(()) => Ok(out),
        Err(e) => Err(e),
    }
}

proof fn lemma_substituted_err_stays(text: Seq<char>, vars: Seq<(String, TomlValue)>, j: int, k: int)
    requires
        0 < j <= k <= vars.len(),
        substituted(text, vars, j) is Err,
    ensures
        substituted(text, vars, k) == substituted(text, vars, j),
    decreases k - j,
{
    if k > j {
        lemma_substituted_err_stays(text, vars, j, k - 1);
    }
}

} // verus!
