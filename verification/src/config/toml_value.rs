//! TOML values as the configuration logic reads them, and their one-line
//! TOML spelling.

use vstd::prelude::*;
use crate::text::{chars_of, decimal, join, join_strings, string_of, strs, u64_to_string};
use crate::lexical::{lex_less, lex_lt, lemma_lex_irreflexive, lemma_lex_total, lemma_lex_transitive, strictly_sorted};

verus! {

#[verifier::external_type_specification]
#[verifier::external_body]
pub struct ExTomlValue(toml::Value);

/// A TOML value. A float is kept as two texts: how Rust displays the
/// number, and how TOML writes it; a datetime as the text it displays as;
/// a table keeps its entries in key order.
#[derive(Debug)]
pub enum TomlValue {
    String(String),
    Integer(i64),
    Float(String, String),
    Boolean(bool),
    Datetime(String),
    Array(Vec<TomlValue>),
    Table(Vec<(String, TomlValue)>),
}

/// A string written as a TOML basic string: quoted, with backslash, quote,
/// newline, carriage return and tab escaped.
pub open spec fn quoted(s: Seq<char>) -> Seq<char> {
    "\""@ + escaped(s) + "\""@
}

/// The escaped body of a basic string.
pub open spec fn escaped(s: Seq<char>) -> Seq<char>
    decreases s.len(),
{
    if s.len() == 0 {
        Seq::empty()
    } else {
        escaped(s.drop_last()) + escape_char(s.last())
    }
}

/// One character of a basic string's body.
pub open spec fn escape_char(c: char) -> Seq<char> {
    if c == '\\' {
        seq!['\\', '\\']
    } else if c == '"' {
        seq!['\\', '"']
    } else if c == '\n' {
        seq!['\\', 'n']
    } else if c == '\r' {
        seq!['\\', 'r']
    } else if c == '\t' {
        seq!['\\', 't']
    } else {
        seq![c]
    }
}

/// The decimal spelling of an integer, with a `-` when negative.
pub open spec fn int_text(i: i64) -> Seq<char> {
    if i < 0 {
        "-"@ + decimal((-(i as int)) as nat)
    } else {
        decimal(i as nat)
    }
}

/// How `value_to_toml_inline` writes a value.
pub open spec fn inline_spec(v: TomlValue) -> Seq<char>
    decreases v, 0int,
{
    match v {
        TomlValue::String(s) => quoted(s@),
        TomlValue::Integer(i) => int_text(i),
        TomlValue::Float(t, _) => t@,
        TomlValue::Boolean(b) => if b {
            "true"@
        } else {
            "false"@
        },
        TomlValue::Datetime(t) => t@,
        TomlValue::Array(items) => "["@ + join(inline_items(items@, items@.len() as int), ", "@) + "]"@,
        TomlValue::Table(entries) => "{ "@ + join(inline_entries(entries@, entries@.len() as int), ", "@) + " }"@,
    }
}

/// The inline forms of the first `k` items.
pub open spec fn inline_items(items: Seq<TomlValue>, k: int) -> Seq<Seq<char>>
    decreases items, k,
{
    if k <= 0 || k > items.len() {
        Seq::empty()
    } else {
        inline_items(items, k - 1).push(inline_spec(items[k - 1]))
    }
}

/// The `key = value` forms of the first `k` entries.
pub open spec fn inline_entries(entries: Seq<(String, TomlValue)>, k: int) -> Seq<Seq<char>>
    decreases entries, k,
{
    if k <= 0 || k > entries.len() {
        Seq::empty()
    } else {
        inline_entries(entries, k - 1).push(entries[k - 1].0@ + " = "@ + inline_spec(entries[k - 1].1))
    }
}

/// The body of a basic string holding `s`.
fn escape(s: &str) -> (r: String)
    ensures
        r@ == escaped(s@),
{
    let cs = chars_of(s);
    let mut out: Vec<char> = Vec::new();
    let mut i: usize = 0;
    while i < cs.len()
        invariant
            0 <= i <= cs.len(),
            cs@ == s@,
            out@ == escaped(s@.take(i as int)),
        decreases cs.len() - i,
    {
        let c: char = cs[i];
        proof {
            assert(s@.take(i + 1).drop_last() =~= s@.take(i as int));
        }
        let ghost o0 = out@;
        if c == '\\' {
            out.push('\\');
            out.push('\\');
        } else if c == '"' {
            out.push('\\');
            out.push('"');
        } else if c == '\n' {
            out.push('\\');
            out.push('n');
        } else if c == '\r' {
            out.push('\\');
            out.push('r');
        } else if c == '\t' {
            out.push('\\');
            out.push('t');
        } else {
            out.push(c);
        }
        proof {
            assert(out@ =~= o0 + escape_char(c));
        }
        i = i + 1;
    }
    proof {
        assert(s@.take(cs.len() as int) =~= s@);
    }
    string_of(&out)
}

/// `i` in decimal, with a `-` when negative.
pub fn i64_to_string(i: i64) -> (r: String)
    ensures
        r@ == int_text(i),
{
    if i < 0 {
        let m: u64 = ((-(i + 1)) as u64) + 1;
        let mut r: String = String::from_str("-");
        r.append(u64_to_string(m).as_str());
        r
    } else {
        u64_to_string(i as u64)
    }
}

/// The one-line TOML spelling of `value`: strings quoted and escaped,
/// arrays as `[a, b]`, tables as `{ k = v, ... }`.
pub fn value_to_toml_inline(value: &TomlValue) -> (r: String)
    ensures
        r@ == inline_spec(*value),
    decreases value, 0int,
{
    match value {
        TomlValue::String(s) => {
            let mut r: String = String::from_str("\"");
            r.append(escape(s.as_str()).as_str());
            r.append("\"");
            r
        },
        TomlValue::Integer(i) => i64_to_string(*i),
        TomlValue::Float(t, _) => t.clone(),
        TomlValue::Boolean(b) => if *b {
            String::from_str("true")
        } else {
            String::from_str("false")
        },
        TomlValue::Datetime(t) => t.clone(),
        TomlValue::Array(items) => {
            let parts: Vec<String> = inline_all(items, items.len());
            let mut r: String = String::from_str("[");
            r.append(join_strings(&parts, ", ").as_str());
            r.append("]");
            r
        },
        TomlValue::Table(entries) => {
            let parts: Vec<String> = inline_all_entries(entries, entries.len());
            let mut r: String = String::from_str("{ ");
            r.append(join_strings(&parts, ", ").as_str());
            r.append(" }");
            r
        },
    }
}

fn inline_all(items: &Vec<TomlValue>, k: usize) -> (r: Vec<String>)
    requires
        k <= items.len(),
    ensures
        strs(r@) == inline_items(items@, k as int),
    decreases items@, k,
{
    if k == 0 {
        let r: Vec<String> = Vec::new();
        proof {
            assert(strs(r@) =~= Seq::<Seq<char>>::empty());
        }
        r
    } else {
        let mut r: Vec<String> = inline_all(items, k - 1);
        let ghost r0 = strs(r@);
        r.push(value_to_toml_inline(&items[k - 1]));
        proof {
            assert(strs(r@) =~= r0.push(inline_spec(items@[k - 1])));
        }
        r
    }
}

fn inline_all_entries(entries: &Vec<(String, TomlValue)>, k: usize) -> (r: Vec<String>)
    requires
        k <= entries.len(),
    ensures
        strs(r@) == inline_entries(entries@, k as int),
    decreases entries@, k,
{
    if k == 0 {
        let r: Vec<String> = Vec::new();
        proof {
            assert(strs(r@) =~= Seq::<Seq<char>>::empty());
        }
        r
    } else {
        let mut r: Vec<String> = inline_all_entries(entries, k - 1);
        let ghost r0 = strs(r@);
        let mut part: String = entries[k - 1].0.clone();
        part.append(" = ");
        part.append(value_to_toml_inline(&entries[k - 1].1).as_str());
        r.push(part);
        proof {
            assert(strs(r@) =~= r0.push(entries@[k - 1].0@ + " = "@ + inline_spec(entries@[k - 1].1)));
        }
        r
    }
}

/// `s` holds no newline and no carriage return.
pub open spec fn no_line_break(s: Seq<char>) -> bool {
    forall|j: int| 0 <= j < s.len() ==> #[trigger] s[j] != '\n' && s[j] != '\r'
}

/// Every float and datetime text, and every table key, inside `v` holds no
/// line break.
pub open spec fn texts_clean(v: TomlValue) -> bool
    decreases v, 0int,
{
    match v {
        TomlValue::Float(t, _) => no_line_break(t@),
        TomlValue::Datetime(t) => no_line_break(t@),
        TomlValue::Array(items) => items_clean(items@, items@.len() as int),
        TomlValue::Table(entries) => entries_clean(entries@, entries@.len() as int),
        _ => true,
    }
}

/// The first `k` items are clean.
pub open spec fn items_clean(items: Seq<TomlValue>, k: int) -> bool
    decreases items, k,
{
    if k <= 0 || k > items.len() {
        true
    } else {
        items_clean(items, k - 1) && texts_clean(items[k - 1])
    }
}

/// The first `k` entries have clean keys and values.
pub open spec fn entries_clean(entries: Seq<(String, TomlValue)>, k: int) -> bool
    decreases entries, k,
{
    if k <= 0 || k > entries.len() {
        true
    } else {
        entries_clean(entries, k - 1) && no_line_break(entries[k - 1].0@) && texts_clean(entries[k - 1].1)
    }
}

proof fn lemma_concat_clean(a: Seq<char>, b: Seq<char>)
    requires
        no_line_break(a),
        no_line_break(b),
    ensures
        no_line_break(a + b),
{
    assert forall|j: int| 0 <= j < (a + b).len() implies #[trigger] (a + b)[j] != '\n' && (a + b)[j] != '\r' by {
        if j < a.len() {
            assert((a + b)[j] == a[j]);
        } else {
            assert((a + b)[j] == b[j - a.len()]);
        }
    }
}

proof fn lemma_escaped_clean(s: Seq<char>)
    ensures
        no_line_break(escaped(s)),
    decreases s.len(),
{
    if s.len() > 0 {
        lemma_escaped_clean(s.drop_last());
        lemma_concat_clean(escaped(s.drop_last()), escape_char(s.last()));
    }
}

proof fn lemma_decimal_clean(n: nat)
    ensures
        no_line_break(decimal(n)),
    decreases n,
{
    if n >= 10 {
        lemma_decimal_clean(n / 10);
        lemma_concat_clean(decimal(n / 10), seq![crate::text::digit_char(n % 10)]);
        assert(decimal(n) =~= decimal(n / 10) + seq![crate::text::digit_char(n % 10)]);
    }
}

proof fn lemma_join_clean(parts: Seq<Seq<char>>, sep: Seq<char>)
    requires
        no_line_break(sep),
        forall|i: int| 0 <= i < parts.len() ==> no_line_break(#[trigger] parts[i]),
    ensures
        no_line_break(join(parts, sep)),
    decreases parts.len(),
{
    if parts.len() > 1 {
        lemma_join_clean(parts.drop_last(), sep);
        lemma_concat_clean(join(parts.drop_last(), sep), sep);
        lemma_concat_clean(join(parts.drop_last(), sep) + sep, parts.last());
    } else if parts.len() == 1 {
        assert(no_line_break(parts[0]));
    }
}

proof fn lemma_literals_clean()
    ensures
        no_line_break("\""@),
        no_line_break("-"@),
        no_line_break("true"@),
        no_line_break("false"@),
        no_line_break("["@),
        no_line_break("]"@),
        no_line_break("{ "@),
        no_line_break(" }"@),
        no_line_break(", "@),
        no_line_break(" = "@),
{
    reveal_strlit("\"");
    reveal_strlit("-");
    reveal_strlit("true");
    reveal_strlit("false");
    reveal_strlit("[");
    reveal_strlit("]");
    reveal_strlit("{ ");
    reveal_strlit(" }");
    reveal_strlit(", ");
    reveal_strlit(" = ");
}

/// The one-line law: the inline spelling of a value never holds a newline
/// or a carriage return, provided its float and datetime texts and its
/// table keys hold none. So a substituted value never moves the lines that
/// follow it.
pub proof fn lemma_inline_has_no_line_break(v: TomlValue)
    requires
        texts_clean(v),
    ensures
        no_line_break(inline_spec(v)),
    decreases v, 0int,
{
    lemma_literals_clean();
    match v {
        TomlValue::String(s) => {
            lemma_escaped_clean(s@);
            lemma_concat_clean("\""@, escaped(s@));
            lemma_concat_clean("\""@ + escaped(s@), "\""@);
        },
        TomlValue::Integer(i) => {
            if i < 0 {
                lemma_decimal_clean((-(i as int)) as nat);
                lemma_concat_clean("-"@, decimal((-(i as int)) as nat));
            } else {
                lemma_decimal_clean(i as nat);
            }
        },
        TomlValue::Float(t, _) => {},
        TomlValue::Boolean(b) => {},
        TomlValue::Datetime(t) => {},
        TomlValue::Array(items) => {
            let parts = inline_items(items@, items@.len() as int);
            lemma_items_inline_clean(items@, items@.len() as int);
            lemma_join_clean(parts, ", "@);
            lemma_concat_clean("["@, join(parts, ", "@));
            lemma_concat_clean("["@ + join(parts, ", "@), "]"@);
        },
        TomlValue::Table(entries) => {
            let parts = inline_entries(entries@, entries@.len() as int);
            lemma_entries_inline_clean(entries@, entries@.len() as int);
            lemma_join_clean(parts, ", "@);
            lemma_concat_clean("{ "@, join(parts, ", "@));
            lemma_concat_clean("{ "@ + join(parts, ", "@), " }"@);
        },
    }
}

proof fn lemma_items_inline_clean(items: Seq<TomlValue>, k: int)
    requires
        items_clean(items, k),
    ensures
        inline_items(items, k).len() == if k <= 0 || k > items.len() { 0 } else { k },
        forall|i: int| 0 <= i < inline_items(items, k).len() ==> no_line_break(#[trigger] inline_items(items, k)[i]),
    decreases items, k,
{
    if k > 0 && k <= items.len() {
        lemma_items_inline_clean(items, k - 1);
        lemma_inline_has_no_line_break(items[k - 1]);
        let prev = inline_items(items, k - 1);
        assert forall|i: int| 0 <= i < inline_items(items, k).len() implies no_line_break(#[trigger] inline_items(items, k)[i]) by {
            if i < prev.len() {
                assert(inline_items(items, k)[i] == prev[i]);
            }
        }
    }
}

proof fn lemma_entries_inline_clean(entries: Seq<(String, TomlValue)>, k: int)
    requires
        entries_clean(entries, k),
    ensures
        inline_entries(entries, k).len() == if k <= 0 || k > entries.len() { 0 } else { k },
        forall|i: int| 0 <= i < inline_entries(entries, k).len() ==> no_line_break(#[trigger] inline_entries(entries, k)[i]),
    decreases entries, k,
{
    if k > 0 && k <= entries.len() {
        lemma_entries_inline_clean(entries, k - 1);
        lemma_inline_has_no_line_break(entries[k - 1].1);
        lemma_literals_clean();
        lemma_concat_clean(entries[k - 1].0@, " = "@);
        lemma_concat_clean(entries[k - 1].0@ + " = "@, inline_spec(entries[k - 1].1));
        let prev = inline_entries(entries, k - 1);
        assert forall|i: int| 0 <= i < inline_entries(entries, k).len() implies no_line_break(#[trigger] inline_entries(entries, k)[i]) by {
            if i < prev.len() {
                assert(inline_entries(entries, k)[i] == prev[i]);
            }
        }
    }
}

/// What `toml::from_str::<toml::Value>` makes of `content`: the document,
/// converted, or the text its error displays as. A function of the text
/// alone.
pub uninterp spec fn toml_parse(content: Seq<char>) -> Result<TomlValue, Seq<char>>;

/// The TOML document `content` holds, or `None` when it is not valid TOML.
pub open spec fn toml_document(content: Seq<char>) -> Option<TomlValue> {
    match toml_parse(content) {
        Ok(v) => Some(v),
        Err(_) => None,
    }
}

/// `toml::from_str::<toml::Value>`: parses `content` as a TOML document.
/// The contract names the outcome as a function of the text, and says that
/// every table in the document has its keys in order, each once: `toml`
/// keeps a table in a `BTreeMap` (its `preserve_order` feature is off
/// here), and the conversion keeps the map's order.
#[verifier::external_body]
pub(crate) fn parse_toml_document(content: &str) -> (r: Result<TomlValue, String>)
    ensures
        match r {
            Ok(v) => toml_parse(content@) == Ok::<TomlValue, Seq<char>>(v) && deep_sorted(v),
            Err(e) => toml_parse(content@) == Err::<TomlValue, Seq<char>>(e@),
        },
{
    match toml::from_str::<toml::Value>(content) {
        Ok(v) => Ok(toml_value_of(&v)),
        Err(e) => Err(e.to_string()),
    }
}

/// The TOML document `content` holds, or `None` when it does not parse.
pub(crate) fn parse_toml(content: &str) -> (r: Option<TomlValue>)
    ensures
        r == toml_document(content@),
        r matches Some(v) ==> deep_sorted(v),
{
    match parse_toml_document(content) {
        Ok(v) => Some(v),
        Err(_) => None,
    }
}

/// Converts a `toml::Value`, variant for variant; floats and datetimes
/// become the text they display as.
#[verifier::external_body]
fn toml_value_of(v: &toml::Value) -> TomlValue {
    match v {
        toml::Value::String(s) => TomlValue::String(s.clone()),
        toml::Value::Integer(i) => TomlValue::Integer(*i),
        toml::Value::Float(x) => TomlValue::Float(x.to_string(), v.to_string()),
        toml::Value::Boolean(b) => TomlValue::Boolean(*b),
        toml::Value::Datetime(d) => TomlValue::Datetime(d.to_string()),
        toml::Value::Array(a) => TomlValue::Array(a.iter().map(toml_value_of).collect()),
        toml::Value::Table(t) => TomlValue::Table(t.iter().map(|(k, x)| (k.clone(), toml_value_of(x))).collect()),
    }
}

/// The text `toml` displays a value as (`Display` of `toml::Value`): the
/// value written as TOML. A function of the value alone.
pub uninterp spec fn toml_display(v: TomlValue) -> Seq<char>;

/// `Display` of `toml::Value`: the value written as TOML. The contract
/// names the text as a function of the value.
#[verifier::external_body]
pub(crate) fn display_value(v: &TomlValue) -> (r: String)
    ensures
        r@ == toml_display(*v),
{
    toml_value_back(v).to_string()
}

/// Converts to a `toml::Value`, variant for variant; a float and a datetime
/// are read back from the text TOML writes them as.
#[verifier::external_body]
fn toml_value_back(v: &TomlValue) -> toml::Value {
    match v {
        TomlValue::String(s) => toml::Value::String(s.clone()),
        TomlValue::Integer(i) => toml::Value::Integer(*i),
        TomlValue::Boolean(b) => toml::Value::Boolean(*b),
        TomlValue::Float(_, t) | TomlValue::Datetime(t) => t.parse().unwrap_or_else(|_| toml::Value::String(t.clone())),
        TomlValue::Array(a) => toml::Value::Array(a.iter().map(toml_value_back).collect()),
        TomlValue::Table(e) => toml::Value::Table(e.iter().map(|(k, x)| (k.clone(), toml_value_back(x))).collect()),
    }
}

/// Every table inside `v`, `v` included, has its keys in order.
pub open spec fn deep_sorted(v: TomlValue) -> bool
    decreases v, 0int,
{
    match v {
        TomlValue::Array(items) => items_sorted(items@, items@.len() as int),
        TomlValue::Table(entries) => table_sorted(entries@) && entries_sorted(entries@, entries@.len() as int),
        _ => true,
    }
}

/// The first `k` items are deeply sorted.
pub open spec fn items_sorted(items: Seq<TomlValue>, k: int) -> bool
    decreases items, k,
{
    if k <= 0 || k > items.len() {
        true
    } else {
        items_sorted(items, k - 1) && deep_sorted(items[k - 1])
    }
}

/// The values of the first `k` entries are deeply sorted.
pub open spec fn entries_sorted(entries: Seq<(String, TomlValue)>, k: int) -> bool
    decreases entries, k,
{
    if k <= 0 || k > entries.len() {
        true
    } else {
        entries_sorted(entries, k - 1) && deep_sorted(entries[k - 1].1)
    }
}

proof fn lemma_entries_sorted(entries: Seq<(String, TomlValue)>, k: int)
    requires
        0 <= k <= entries.len(),
        entries_sorted(entries, k),
    ensures
        forall|i: int| 0 <= i < k ==> deep_sorted(#[trigger] entries[i].1),
    decreases k,
{
    if k > 0 {
        lemma_entries_sorted(entries, k - 1);
    }
}

/// A deeply sorted table has its keys in order, and its values are deeply
/// sorted.
pub proof fn lemma_deep_sorted_table(v: TomlValue)
    requires
        deep_sorted(v),
    ensures
        v matches TomlValue::Table(e) ==> table_sorted(e@) && forall|i: int| 0 <= i < e@.len() ==> deep_sorted(#[trigger] e@[i].1),
{
    if let TomlValue::Table(e) = v {
        lemma_entries_sorted(e@, e@.len() as int);
    }
}

/// The entry of a table named `key`, the first one when there are several.
pub open spec fn entry_index(entries: Seq<(String, TomlValue)>, key: Seq<char>, k: int) -> Option<nat>
    decreases entries.len() - k,
{
    if k < 0 || k >= entries.len() {
        None
    } else if entries[k].0@ == key {
        Some(k as nat)
    } else {
        entry_index(entries, key, k + 1)
    }
}

/// The position of the entry named `key`.
pub fn find_entry(entries: &Vec<(String, TomlValue)>, key: &str) -> (r: Option<usize>)
    ensures
        r matches Some(i) ==> entry_index(entries@, key@, 0) == Some(i as nat) && i < entries@.len() && entries@[i as int].0@
            == key@,
        r is None ==> entry_index(entries@, key@, 0) is None,
{
    let mut i: usize = 0;
    while i < entries.len()
        invariant
            0 <= i <= entries.len(),
            entry_index(entries@, key@, 0) == entry_index(entries@, key@, i as int),
        decreases entries.len() - i,
    {
        if crate::text::str_eq(entries[i].0.as_str(), key) {
            return Some(i);
        }
        i = i + 1;
    }
    None
}

/// The `[vars]` table of a parsed document, when it has one.
pub open spec fn vars_table(doc: Option<TomlValue>) -> Option<Seq<(String, TomlValue)>> {
    match doc {
        Some(TomlValue::Table(top)) => match entry_index(top@, "vars"@, 0) {
            Some(i) => match top@[i as int].1 {
                TomlValue::Table(vars) => Some(vars@),
                _ => None,
            },
            None => None,
        },
        _ => None,
    }
}

/// The keys of a table, in order.
pub open spec fn entry_keys_of(entries: Seq<(String, TomlValue)>) -> Seq<Seq<char>> {
    entries.map_values(|e: (String, TomlValue)| e.0@)
}

/// A table's keys are in strictly increasing character order, as in the
/// ordered map `toml` keeps tables in; so no key occurs twice.
pub open spec fn table_sorted(entries: Seq<(String, TomlValue)>) -> bool {
    strictly_sorted(entry_keys_of(entries), false)
}

/// A table as a map from key to value.
pub open spec fn table_view(entries: Seq<(String, TomlValue)>) -> Map<Seq<char>, TomlValue> {
    Map::new(
        |k: Seq<char>| entry_keys_of(entries).contains(k),
        |k: Seq<char>| entries[entry_keys_of(entries).index_of(k)].1,
    )
}

proof fn lemma_sorted_no_duplicates(keys: Seq<Seq<char>>)
    requires
        strictly_sorted(keys, false),
    ensures
        keys.no_duplicates(),
{
    assert forall|i: int, j: int| 0 <= i < keys.len() && 0 <= j < keys.len() && i != j implies keys[i] != keys[j] by {
        if i < j {
            assert(lex_lt(keys[i], keys[j], false));
        } else {
            assert(lex_lt(keys[j], keys[i], false));
        }
        lemma_lex_irreflexive(keys[i], false);
    }
}

/// In a sorted table, the entry at `i` is the one the map gives for its key.
pub proof fn lemma_table_entry(entries: Seq<(String, TomlValue)>, i: int)
    requires
        table_sorted(entries),
        0 <= i < entries.len(),
    ensures
        table_view(entries).contains_key(entries[i].0@),
        table_view(entries)[entries[i].0@] == entries[i].1,
{
    let keys = entry_keys_of(entries);
    lemma_sorted_no_duplicates(keys);
    assert(keys[i] == entries[i].0@);
    keys.index_of_first_ensures(entries[i].0@);
}

/// Whether the table has an entry named `key`.
pub fn table_contains(entries: &Vec<(String, TomlValue)>, key: &str) -> (r: bool)
    ensures
        r == entry_keys_of(entries@).contains(key@),
        r == table_view(entries@).contains_key(key@),
{
    let mut i: usize = 0;
    while i < entries.len()
        invariant
            0 <= i <= entries.len(),
            forall|j: int| 0 <= j < i ==> #[trigger] entry_keys_of(entries@)[j] != key@,
        decreases entries.len() - i,
    {
        if crate::text::str_eq(entries[i].0.as_str(), key) {
            proof {
                assert(entry_keys_of(entries@)[i as int] == key@);
            }
            return true;
        }
        i = i + 1;
    }
    false
}

/// The value of the entry named `key`, in a sorted table.
pub fn table_get<'a>(entries: &'a Vec<(String, TomlValue)>, key: &str) -> (r: Option<&'a TomlValue>)
    requires
        table_sorted(entries@),
    ensures
        r is Some <==> table_view(entries@).contains_key(key@),
        r matches Some(v) ==> *v == table_view(entries@)[key@],
{
    let mut i: usize = 0;
    while i < entries.len()
        invariant
            0 <= i <= entries.len(),
            table_sorted(entries@),
            forall|j: int| 0 <= j < i ==> #[trigger] entry_keys_of(entries@)[j] != key@,
        decreases entries.len() - i,
    {
        if crate::text::str_eq(entries[i].0.as_str(), key) {
            proof {
                lemma_table_entry(entries@, i as int);
            }
            return Some(&entries[i].1);
        }
        i = i + 1;
    }
    None
}

/// Adds an entry for a key the table does not have yet, at its place in
/// key order.
pub fn table_insert(entries: &mut Vec<(String, TomlValue)>, key: String, value: TomlValue)
    requires
        table_sorted(old(entries)@),
        !entry_keys_of(old(entries)@).contains(key@),
    ensures
        table_sorted(final(entries)@),
        table_view(final(entries)@) == table_view(old(entries)@).insert(key@, value),
        final(entries)@.len() == old(entries)@.len() + 1,
{
    let ghost e0 = entries@;
    let ghost s0 = entry_keys_of(e0);
    let mut k: usize = 0;
    while k < entries.len() && lex_less(entries[k].0.as_str(), key.as_str(), false)
        invariant
            0 <= k <= entries.len(),
            entries@ == e0,
            s0 == entry_keys_of(e0),
            strictly_sorted(s0, false),
            forall|i: int| 0 <= i < k ==> lex_lt(#[trigger] s0[i], key@, false),
        decreases entries.len() - k,
    {
        proof {
            assert(s0[k as int] == entries@[k as int].0@);
        }
        k = k + 1;
    }
    proof {
        if k < e0.len() {
            assert(s0[k as int] == e0[k as int].0@);
            assert(!lex_lt(s0[k as int], key@, false));
            assert(s0[k as int] != key@);
            lemma_lex_total(s0[k as int], key@, false);
        }
        assert forall|j: int| k <= j < s0.len() implies lex_lt(key@, #[trigger] s0[j], false) by {
            if j > k {
                lemma_lex_transitive(key@, s0[k as int], s0[j], false);
            }
        }
        lemma_sorted_no_duplicates(s0);
    }
    let ghost kv = key@;
    let ghost vv = value;
    entries.insert(k, (key, value));
    proof {
        let e1 = entries@;
        let s1 = entry_keys_of(e1);
        assert(e1 =~= e0.insert(k as int, (e1[k as int].0, vv)));
        assert(s1 =~= s0.insert(k as int, kv));
        assert forall|i: int, j: int| 0 <= i < j < s1.len() implies lex_lt(#[trigger] s1[i], #[trigger] s1[j], false) by {
            if j < k {
                assert(s1[i] == s0[i] && s1[j] == s0[j]);
            } else if j == k {
                assert(s1[i] == s0[i]);
            } else if i < k {
                assert(s1[i] == s0[i] && s1[j] == s0[j - 1]);
                lemma_lex_transitive(s0[i], kv, s0[j - 1], false);
            } else if i == k {
                assert(s1[j] == s0[j - 1]);
            } else {
                assert(s1[i] == s0[i - 1] && s1[j] == s0[j - 1]);
            }
        }
        lemma_sorted_no_duplicates(s1);
        let m0 = table_view(e0);
        let m1 = table_view(e1);
        assert forall|q: Seq<char>| #[trigger] m1.contains_key(q) <==> m0.insert(kv, vv).contains_key(q) by {
            if s1.contains(q) {
                let t = choose|t: int| 0 <= t < s1.len() && s1[t] == q;
                if t < k {
                    assert(s0[t] == q);
                } else if t > k {
                    assert(s0[t - 1] == q);
                }
            }
            if s0.contains(q) {
                let t = choose|t: int| 0 <= t < s0.len() && s0[t] == q;
                if t < k {
                    assert(s1[t] == q);
                } else {
                    assert(s1[t + 1] == q);
                }
            }
            if q == kv {
                assert(s1[k as int] == q);
            }
        }
        assert forall|q: Seq<char>| m1.contains_key(q) implies #[trigger] m1[q] == m0.insert(kv, vv)[q] by {
            s1.index_of_first_ensures(q);
            let t = s1.index_of(q);
            if q == kv {
                assert(s1[k as int] == kv);
                assert(t == k as int);
            } else {
                s0.index_of_first_ensures(q);
                if t < k {
                    assert(s0[t] == q);
                    assert(s0.index_of(q) == t);
                } else {
                    assert(t > k);
                    assert(s0[t - 1] == q);
                    assert(s0.index_of(q) == t - 1);
                }
            }
        }
        assert(m1 =~= m0.insert(kv, vv));
    }
}

/// Replaces the value of a key the table has.
pub fn table_set(entries: &mut Vec<(String, TomlValue)>, key: &str, value: TomlValue)
    requires
        table_sorted(old(entries)@),
        table_view(old(entries)@).contains_key(key@),
    ensures
        table_sorted(final(entries)@),
        table_view(final(entries)@) == table_view(old(entries)@).insert(key@, value),
{
    let ghost e0 = entries@;
    let ghost vv = value;
    let mut i: usize = 0;
    while i < entries.len()
        invariant
            0 <= i <= entries.len(),
            entries@ == e0,
            old(entries)@ == e0,
            value == vv,
            table_sorted(e0),
            forall|j: int| 0 <= j < i ==> #[trigger] entry_keys_of(e0)[j] != key@,
        decreases entries.len() - i,
    {
        if crate::text::str_eq(entries[i].0.as_str(), key) {
            let k: String = entries[i].0.clone();
            entries.set(i, (k, value));
            proof {
                let s0 = entry_keys_of(e0);
                let s1 = entry_keys_of(entries@);
                assert(entries@ == e0.update(i as int, (e0[i as int].0, vv)));
                assert(s1 =~= s0);
                lemma_sorted_no_duplicates(s0);
                let m0 = table_view(e0);
                let m1 = table_view(entries@);
                let m2 = m0.insert(key@, vv);
                assert(s0[i as int] == key@);
                assert forall|q: Seq<char>| #[trigger] m1.contains_key(q) <==> m2.contains_key(q) by {}
                assert forall|q: Seq<char>| m1.contains_key(q) implies #[trigger] m1[q] == m2[q] by {
                    s0.index_of_first_ensures(q);
                    let t = s0.index_of(q);
                    if q == key@ {
                        assert(t == i as int);
                        assert(m1[q] == entries@[i as int].1);
                    } else {
                        assert(t != i as int);
                        assert(m1[q] == entries@[t].1);
                        assert(entries@[t] == e0[t]);
                    }
                }
                assert(m1 =~= m2);
            }
            return;
        }
        i = i + 1;
    }
    proof {
        assert(!entry_keys_of(e0).contains(key@));
    }
}

} // verus!
verus! {

/// The two values are the same: same variant, same texts, same items and
/// entries in the same order.
pub open spec fn same_value(a: TomlValue, b: TomlValue) -> bool
    decreases a, 0int,
{
    match (a, b) {
        (TomlValue::String(x), TomlValue::String(y)) => x@ == y@,
        (TomlValue::Integer(x), TomlValue::Integer(y)) => x == y,
        (TomlValue::Float(x, u), TomlValue::Float(y, w)) => x@ == y@ && u@ == w@,
        (TomlValue::Boolean(x), TomlValue::Boolean(y)) => x == y,
        (TomlValue::Datetime(x), TomlValue::Datetime(y)) => x@ == y@,
        (TomlValue::Array(x), TomlValue::Array(y)) => x@.len() == y@.len() && same_items(x@, y@, x@.len() as int),
        (TomlValue::Table(x), TomlValue::Table(y)) => x@.len() == y@.len() && same_entries(x@, y@, x@.len() as int),
        _ => false,
    }
}

/// The first `k` items are the same.
pub open spec fn same_items(x: Seq<TomlValue>, y: Seq<TomlValue>, k: int) -> bool
    decreases x, k,
{
    if k <= 0 || k > x.len() || k > y.len() {
        k <= 0
    } else {
        same_items(x, y, k - 1) && same_value(x[k - 1], y[k - 1])
    }
}

/// The first `k` entries have the same keys and values.
pub open spec fn same_entries(x: Seq<(String, TomlValue)>, y: Seq<(String, TomlValue)>, k: int) -> bool
    decreases x, k,
{
    if k <= 0 || k > x.len() || k > y.len() {
        k <= 0
    } else {
        same_entries(x, y, k - 1) && x[k - 1].0@ == y[k - 1].0@ && same_value(x[k - 1].1, y[k - 1].1)
    }
}

/// Items compared only up to `k` stay compared when later items change.
proof fn lemma_same_items_prefix(x: Seq<TomlValue>, y: Seq<TomlValue>, z: Seq<TomlValue>, k: int)
    requires
        same_items(x, y, k),
        0 <= k <= y.len(),
        k <= z.len(),
        forall|j: int| 0 <= j < k ==> y[j] == z[j],
    ensures
        same_items(x, z, k),
    decreases k,
{
    if k > 0 {
        lemma_same_items_prefix(x, y, z, k - 1);
    }
}

/// Entries compared only up to `k` stay compared when later entries change.
proof fn lemma_same_entries_prefix(x: Seq<(String, TomlValue)>, y: Seq<(String, TomlValue)>, z: Seq<(String, TomlValue)>, k: int)
    requires
        same_entries(x, y, k),
        0 <= k <= y.len(),
        k <= z.len(),
        forall|j: int| 0 <= j < k ==> y[j] == z[j],
    ensures
        same_entries(x, z, k),
    decreases k,
{
    if k > 0 {
        lemma_same_entries_prefix(x, y, z, k - 1);
    }
}

/// A copy of a value.
pub fn copy_value(v: &TomlValue) -> (r: TomlValue)
    ensures
        same_value(*v, r),
    decreases *v,
{
    match v {
        TomlValue::String(s) => TomlValue::String(s.clone()),
        TomlValue::Integer(i) => TomlValue::Integer(*i),
        TomlValue::Float(s, t) => TomlValue::Float(s.clone(), t.clone()),
        TomlValue::Boolean(b) => TomlValue::Boolean(*b),
        TomlValue::Datetime(s) => TomlValue::Datetime(s.clone()),
        TomlValue::Array(items) => {
            let mut out: Vec<TomlValue> = Vec::new();
            let mut i: usize = 0;
            while i < items.len()
                invariant
                    0 <= i <= items.len(),
                    *v == TomlValue::Array(*items),
                    out@.len() == i,
                    same_items(items@, out@, i as int),
                decreases items.len() - i,
            {
                proof {
                    broadcast use vstd::std_specs::vec::axiom_vec_index_decreases;
                    assert(decreases_to!(*items => items[i as int]));
                    assert(decreases_to!(*v => (*v)->Array_0));
                    assert(decreases_to!(*v => items[i as int]));
                }
                let c: TomlValue = copy_value(&items[i]);
                let ghost o0 = out@;
                out.push(c);
                proof {
                    lemma_same_items_prefix(items@, o0, out@, i as int);
                }
                i = i + 1;
            }
            TomlValue::Array(out)
        },
        TomlValue::Table(entries) => {
            let mut out: Vec<(String, TomlValue)> = Vec::new();
            let mut i: usize = 0;
            while i < entries.len()
                invariant
                    0 <= i <= entries.len(),
                    *v == TomlValue::Table(*entries),
                    out@.len() == i,
                    same_entries(entries@, out@, i as int),
                decreases entries.len() - i,
            {
                proof {
                    broadcast use vstd::std_specs::vec::axiom_vec_index_decreases;
                    assert(decreases_to!(*entries => entries[i as int]));
                    assert(decreases_to!(entries[i as int] => entries[i as int].1));
                    assert(decreases_to!(*v => (*v)->Table_0));
                    assert(decreases_to!(*v => entries[i as int].1));
                }
                let c: TomlValue = copy_value(&entries[i].1);
                let k: String = entries[i].0.clone();
                let ghost o0 = out@;
                out.push((k, c));
                proof {
                    lemma_same_entries_prefix(entries@, o0, out@, i as int);
                }
                i = i + 1;
            }
            TomlValue::Table(out)
        },
    }
}

/// `r` is `b` with `o` merged over it: two tables merge key by key (a key
/// that holds a table on both sides merges again, any other key of `o`
/// replaces or adds its value, keys only in `b` stay); anything else is
/// replaced by `o` wholesale.
pub open spec fn merged(b: TomlValue, o: TomlValue, r: TomlValue) -> bool
    decreases o, 0int,
{
    match (b, o) {
        (TomlValue::Table(bt), TomlValue::Table(ot)) => r matches TomlValue::Table(rt) && table_merged(bt@, ot@, rt@, ot@.len() as int),
        _ => r == o,
    }
}

/// The merged table: its keys are those of `bt` and of the first `k`
/// entries of `ot`; keys of `bt` not among those entries keep their value;
/// each of those entries is merged in.
pub open spec fn table_merged(bt: Seq<(String, TomlValue)>, ot: Seq<(String, TomlValue)>, rt: Seq<(String, TomlValue)>, k: int) -> bool
    decreases ot, ot.len() + 1,
{
    &&& forall|key: Seq<char>| #[trigger] table_view(rt).contains_key(key) <==> table_view(bt).contains_key(key)
        || entry_keys_of(ot).take(k).contains(key)
    &&& forall|key: Seq<char>| #[trigger] table_view(bt).contains_key(key) && !entry_keys_of(ot).take(k).contains(key)
        ==> table_view(rt)[key] == table_view(bt)[key]
    &&& if 0 <= k <= ot.len() {
        entries_merged(bt, ot, rt, k)
    } else {
        false
    }
}

/// Each of the first `k` entries of `ot` is merged into `rt`.
pub open spec fn entries_merged(bt: Seq<(String, TomlValue)>, ot: Seq<(String, TomlValue)>, rt: Seq<(String, TomlValue)>, k: int) -> bool
    decreases ot, k,
{
    if k <= 0 || k > ot.len() {
        true
    } else {
        entries_merged(bt, ot, rt, k - 1) && entry_merged(bt, ot[k - 1].0@, ot[k - 1].1, rt)
    }
}

/// One entry `key = ov` of the overlay, merged into `rt`.
pub open spec fn entry_merged(bt: Seq<(String, TomlValue)>, key: Seq<char>, ov: TomlValue, rt: Seq<(String, TomlValue)>) -> bool
    decreases ov, 1int,
{
    table_view(rt).contains_key(key) && if table_view(bt).contains_key(key) && table_view(bt)[key] is Table && ov is Table {
        merged(table_view(bt)[key], ov, table_view(rt)[key])
    } else {
        table_view(rt)[key] == ov
    }
}

proof fn lemma_entries_sorted_build(entries: Seq<(String, TomlValue)>, k: int)
    requires
        0 <= k <= entries.len(),
        forall|i: int| 0 <= i < k ==> deep_sorted(#[trigger] entries[i].1),
    ensures
        entries_sorted(entries, k),
    decreases k,
{
    if k > 0 {
        lemma_entries_sorted_build(entries, k - 1);
    }
}

/// A table whose values are all deeply sorted has deeply sorted entries.
pub proof fn lemma_entries_sorted_from_map(e: Seq<(String, TomlValue)>)
    requires
        table_sorted(e),
        forall|key: Seq<char>| #[trigger] table_view(e).contains_key(key) ==> deep_sorted(table_view(e)[key]),
    ensures
        entries_sorted(e, e.len() as int),
{
    assert forall|i: int| 0 <= i < e.len() implies deep_sorted(#[trigger] e[i].1) by {
        lemma_table_entry(e, i);
    }
    lemma_entries_sorted_build(e, e.len() as int);
}

/// Entries merged into `rt` stay merged into `rt2` when `rt2` holds the
/// same values under their keys.
proof fn lemma_entries_merged_frame(
    bt: Seq<(String, TomlValue)>,
    ot: Seq<(String, TomlValue)>,
    rt: Seq<(String, TomlValue)>,
    rt2: Seq<(String, TomlValue)>,
    k: int,
)
    requires
        0 <= k <= ot.len(),
        entries_merged(bt, ot, rt, k),
        forall|j: int| 0 <= j < k ==> #[trigger] table_view(rt2).contains_key(ot[j].0@) && table_view(rt2)[ot[j].0@] == table_view(rt)[ot[j].0@],
    ensures
        entries_merged(bt, ot, rt2, k),
    decreases k,
{
    if k > 0 {
        lemma_entries_merged_frame(bt, ot, rt, rt2, k - 1);
        let key = ot[k - 1].0@;
        assert(entry_merged(bt, key, ot[k - 1].1, rt));
        assert(table_view(rt2).contains_key(key));
        assert(table_view(rt2)[key] == table_view(rt)[key]);
        assert(entry_merged(bt, key, ot[k - 1].1, rt2));
    }
}

/// Replacing the value of one entry keeps the table sorted, and changes
/// the map at that entry's key only.
proof fn lemma_table_update(e: Seq<(String, TomlValue)>, idx: int, v: TomlValue)
    requires
        table_sorted(e),
        0 <= idx < e.len(),
    ensures
        table_sorted(e.update(idx, (e[idx].0, v))),
        table_view(e.update(idx, (e[idx].0, v))) == table_view(e).insert(e[idx].0@, v),
{
    let e1 = e.update(idx, (e[idx].0, v));
    let s0 = entry_keys_of(e);
    let s1 = entry_keys_of(e1);
    assert(s1 =~= s0);
    lemma_sorted_no_duplicates(s0);
    let m0 = table_view(e);
    let m1 = table_view(e1);
    let m2 = m0.insert(e[idx].0@, v);
    assert(s0[idx] == e[idx].0@);
    assert forall|q: Seq<char>| #[trigger] m1.contains_key(q) <==> m2.contains_key(q) by {}
    assert forall|q: Seq<char>| m1.contains_key(q) implies #[trigger] m1[q] == m2[q] by {
        s0.index_of_first_ensures(q);
        let t = s0.index_of(q);
        if q == e[idx].0@ {
            assert(t == idx);
        } else {
            assert(t != idx);
            assert(e1[t] == e[t]);
        }
    }
    assert(m1 =~= m2);
}

/// Merges `overlay` over `base`: two tables merge key by key (a key that
/// holds a table on both sides merges again; any other key of the overlay
/// replaces or adds its value; keys only in the base stay); anything else
/// is replaced by the overlay wholesale.
pub fn merge_toml_values(base: &mut TomlValue, overlay: TomlValue)
    requires
        deep_sorted(*old(base)),
        deep_sorted(overlay),
    ensures
        merged(*old(base), overlay, *final(base)),
        deep_sorted(*final(base)),
    decreases overlay,
{
    let ghost o0 = overlay;
    let ghost b0 = *base;
    let base_is_table: bool = match base {
        TomlValue::Table(_) => true,
        _ => false,
    };
    match overlay {
        TomlValue::Table(ot) => {
            if !base_is_table {
                *base = TomlValue::Table(ot);
                return;
            }
            match base {
                TomlValue::Table(bt) => {
                    let ghost bt0 = bt@;
                    let ghost ot0 = ot@;
                    proof {
                        lemma_deep_sorted_table(b0);
                        lemma_deep_sorted_table(o0);
                        lemma_sorted_no_duplicates(entry_keys_of(ot0));
                        assert forall|key: Seq<char>| #[trigger] table_view(bt0).contains_key(key) implies deep_sorted(table_view(bt0)[key]) by {
                            let ks = entry_keys_of(bt0);
                            ks.index_of_first_ensures(key);
                        }
                        assert(entry_keys_of(ot0).take(0) =~= Seq::<Seq<char>>::empty());
                        assert forall|key: Seq<char>| #[trigger] table_view(bt@).contains_key(key) <==> table_view(bt0).contains_key(key)
                            || entry_keys_of(ot0).take(0).contains(key) by {}
                    }
                    let mut rest: Vec<(String, TomlValue)> = ot;
                    let total: usize = rest.len();
                    let mut i: usize = 0;
                    while rest.len() > 0
                        invariant
                            0 <= i <= ot0.len(),
                            ot0.len() == total,
                            rest@ == ot0.skip(i as int),
                            o0 matches TomlValue::Table(x) && x@ == ot0,
                            o0 == overlay,
                            b0 matches TomlValue::Table(y) && y@ == bt0,
                            table_sorted(ot0),
                            entry_keys_of(ot0).no_duplicates(),
                            forall|q: int| 0 <= q < ot0.len() ==> deep_sorted(#[trigger] ot0[q].1),
                            table_sorted(bt@),
                            forall|key: Seq<char>| #[trigger] table_view(bt@).contains_key(key) ==> deep_sorted(table_view(bt@)[key]),
                            table_merged(bt0, ot0, bt@, i as int),
                        decreases rest.len(),
                    {
                        proof {
                            assert(rest@[0] == ot0[i as int]);
                        }
                        let (key, ov) = rest.remove(0);
                        let ghost kv = key@;
                        let ghost ovv = ov;
                        let ghost cur = bt@;
                        let ghost done = entry_keys_of(ot0).take(i as int);
                        proof {
                            broadcast use vstd::std_specs::vec::axiom_vec_index_decreases;
                            let x = o0->Table_0;
                            assert(x@[i as int] == ot0[i as int]);
                            assert(decreases_to!(o0 => o0->Table_0));
                            assert(decreases_to!(x => x[i as int]));
                            assert(decreases_to!(x[i as int] => x[i as int].1));
                            assert(decreases_to!(o0 => ovv));
                            assert(kv == entry_keys_of(ot0)[i as int]);
                            assert(!done.contains(kv)) by {
                                if done.contains(kv) {
                                    let j = choose|j: int| 0 <= j < done.len() && done[j] == kv;
                                    assert(entry_keys_of(ot0)[j] == entry_keys_of(ot0)[i as int]);
                                }
                            }
                            assert(table_view(cur).contains_key(kv) <==> table_view(bt0).contains_key(kv));
                            assert(table_view(cur).contains_key(kv) ==> table_view(cur)[kv] == table_view(bt0)[kv]);
                            assert(deep_sorted(ovv));
                        }
                        match find_entry(bt, key.as_str()) {
                            Some(idx) => {
                                proof {
                                    lemma_table_entry(cur, idx as int);
                                }
                                let both: bool = matches!(&bt[idx].1, TomlValue::Table(_)) && matches!(&ov, TomlValue::Table(_));
                                if both {
                                    let ghost old_v = cur[idx as int].1;
                                    let entry: &mut (String, TomlValue) = &mut bt[idx];
                                    proof {
                                        assert(decreases_to!(o0 => ov));
                                    }
                                    merge_toml_values(&mut entry.1, ov);
                                    proof {
                                        lemma_table_update(cur, idx as int, bt@[idx as int].1);
                                        assert(bt@ == cur.update(idx as int, (cur[idx as int].0, bt@[idx as int].1)));
                                    }
                                } else {
                                    table_set(bt, key.as_str(), ov);
                                }
                            },
                            None => {
                                proof {
                                    assert(!table_view(cur).contains_key(kv)) by {
                                        if table_view(cur).contains_key(kv) {
                                            let t = choose|t: int| 0 <= t < cur.len() && entry_keys_of(cur)[t] == kv;
                                            lemma_entry_index_found(cur, kv, t);
                                        }
                                    }
                                }
                                table_insert(bt, key, ov);
                            },
                        }
                        proof {
                            let nb = bt@;
                            let done1 = entry_keys_of(ot0).take(i + 1);
                            assert(done1 =~= done.push(kv));
                            assert(table_view(nb).contains_key(kv));
                            assert forall|q: Seq<char>| q != kv implies (#[trigger] table_view(nb).contains_key(q) <==> table_view(cur).contains_key(q))
                                && (table_view(cur).contains_key(q) ==> table_view(nb)[q] == table_view(cur)[q]) by {}
                            assert forall|j: int| 0 <= j < i implies #[trigger] table_view(nb).contains_key(ot0[j].0@) && table_view(nb)[ot0[j].0@]
                                == table_view(cur)[ot0[j].0@] by {
                                assert(entry_keys_of(ot0)[j] == ot0[j].0@);
                                assert(done[j] == ot0[j].0@);
                                assert(ot0[j].0@ != kv);
                            }
                            lemma_entries_merged_frame(bt0, ot0, cur, nb, i as int);
                            assert(entry_merged(bt0, kv, ovv, nb));
                            assert(ot0[i as int].0@ == kv && ot0[i as int].1 == ovv);
                            assert(entries_merged(bt0, ot0, nb, i + 1));
                            assert forall|q: Seq<char>| #[trigger] table_view(nb).contains_key(q) <==> table_view(bt0).contains_key(q) || done1.contains(q) by {
                                vstd::seq_lib::lemma_seq_contains_after_push(done, kv, q);
                            }
                            assert forall|q: Seq<char>| #[trigger] table_view(bt0).contains_key(q) && !done1.contains(q) implies table_view(nb)[q]
                                == table_view(bt0)[q] by {
                                vstd::seq_lib::lemma_seq_contains_after_push(done, kv, q);
                            }
                            assert forall|q: Seq<char>| #[trigger] table_view(nb).contains_key(q) implies deep_sorted(table_view(nb)[q]) by {
                                if q != kv {
                                    assert(table_view(cur).contains_key(q));
                                }
                            }
                            assert(rest@ =~= ot0.skip(i + 1));
                        }
                        i = i + 1;
                    }
                    proof {
                        assert(entry_keys_of(ot0).take(i as int) =~= entry_keys_of(ot0));
                        lemma_entries_sorted_from_map(bt@);
                    }
                },
                _ => {},
            }
        },
        other => {
            *base = other;
        },
    }
}

/// The first entry of a key is found.
proof fn lemma_entry_index_found(e: Seq<(String, TomlValue)>, key: Seq<char>, t: int)
    requires
        0 <= t < e.len(),
        entry_keys_of(e)[t] == key,
    ensures
        entry_index(e, key, 0) is Some,
{
    lemma_entry_index_from(e, key, 0, t);
}

proof fn lemma_entry_index_from(e: Seq<(String, TomlValue)>, key: Seq<char>, k: int, t: int)
    requires
        0 <= k <= t < e.len(),
        entry_keys_of(e)[t] == key,
    ensures
        entry_index(e, key, k) is Some,
    decreases t - k,
{
    if e[k].0@ != key {
        lemma_entry_index_from(e, key, k + 1, t);
    }
}

} // verus!
