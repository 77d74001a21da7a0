//! What changed between two stored processor configurations: both JSON
//! documents are flattened to dotted keys (`a.b`, `list[0]`) with their
//! values as text, and compared key by key.

use vstd::prelude::*;
use crate::lexical::{lemma_strict_unique, sorted_set, sorted_set_of, strictly_sorted};
use crate::text::{decimal, str_eq, strs, usize_to_string};

verus! {

#[verifier::external_type_specification]
#[verifier::external_body]
pub struct ExJsonValue(serde_json::Value);

/// A JSON value. A number is kept as the text it displays as; an object
/// keeps its members in key order.
#[derive(Debug)]
pub enum JsonValue {
    Null,
    Bool(bool),
    Number(String),
    String(String),
    Array(Vec<JsonValue>),
    Object(Vec<(String, JsonValue)>),
}

/// The document `serde_json::from_str::<serde_json::Value>` reads from
/// `text`, converted, or `None` when the text is not JSON. A function of
/// the text alone.
pub uninterp spec fn json_document(text: Seq<char>) -> Option<JsonValue>;

/// `serde_json::from_str::<serde_json::Value>`: parses `text` as JSON. The
/// contract names the outcome as a function of the text.
#[verifier::external_body]
pub(crate) fn parse_json(text: &str) -> (r: Option<JsonValue>)
    ensures
        r == json_document(text@),
{
    serde_json::from_str::<serde_json::Value>(text).ok().map(|v| json_value_of(&v))
}

/// Converts a `serde_json::Value`, variant for variant; a number becomes
/// the text it displays as.
#[verifier::external_body]
fn json_value_of(v: &serde_json::Value) -> JsonValue {
    match v {
        serde_json::Value::Null => JsonValue::Null,
        serde_json::Value::Bool(b) => JsonValue::Bool(*b),
        serde_json::Value::Number(n) => JsonValue::Number(n.to_string()),
        serde_json::Value::String(s) => JsonValue::String(s.clone()),
        serde_json::Value::Array(a) => JsonValue::Array(a.iter().map(json_value_of).collect()),
        serde_json::Value::Object(o) => JsonValue::Object(o.iter().map(|(k, x)| (k.clone(), json_value_of(x))).collect()),
    }
}

/// How a value that is neither an array nor an object is shown: a string
/// in double quotes (as it is, nothing escaped), `null`, `true`/`false`,
/// a number as it displays.
pub open spec fn leaf_text(v: JsonValue) -> Seq<char> {
    match v {
        JsonValue::String(s) => "\""@ + s@ + "\""@,
        JsonValue::Null => "null"@,
        JsonValue::Bool(b) => if b {
            "true"@
        } else {
            "false"@
        },
        JsonValue::Number(n) => n@,
        _ => Seq::empty(),
    }
}

/// The key of member `k` under `prefix`: `prefix.k`, or `k` at the top.
pub open spec fn member_key(prefix: Seq<char>, k: Seq<char>) -> Seq<char> {
    if prefix.len() == 0 {
        k
    } else {
        prefix + "."@ + k
    }
}

/// The key of item `i` under `prefix`: `prefix[i]`.
pub open spec fn item_key(prefix: Seq<char>, i: nat) -> Seq<char> {
    prefix + "["@ + decimal(i) + "]"@
}

/// The value flattened under `prefix`: every leaf under its dotted key,
/// a later member or item overriding an earlier one that flattened to the
/// same key. An empty array or object has no leaves.
pub open spec fn flat(v: JsonValue, prefix: Seq<char>) -> Map<Seq<char>, Seq<char>>
    decreases v, 0int,
{
    match v {
        JsonValue::Object(members) => flat_members(members@, prefix, members@.len() as int),
        JsonValue::Array(items) => flat_items(items@, prefix, items@.len() as int),
        _ => map![prefix => leaf_text(v)],
    }
}

/// The first `k` members flattened, in order.
pub open spec fn flat_members(members: Seq<(String, JsonValue)>, prefix: Seq<char>, k: int) -> Map<Seq<char>, Seq<char>>
    decreases members, k,
{
    if k <= 0 || k > members.len() {
        Map::empty()
    } else {
        flat_members(members, prefix, k - 1).union_prefer_right(
            flat(members[k - 1].1, member_key(prefix, members[k - 1].0@)),
        )
    }
}

/// The first `k` items flattened, in order.
pub open spec fn flat_items(items: Seq<JsonValue>, prefix: Seq<char>, k: int) -> Map<Seq<char>, Seq<char>>
    decreases items, k,
{
    if k <= 0 || k > items.len() {
        Map::empty()
    } else {
        flat_items(items, prefix, k - 1).union_prefer_right(flat(items[k - 1], item_key(prefix, (k - 1) as nat)))
    }
}

/// A map from text keys to text values, each key once.
pub struct FlatMap {
    entries: Vec<(String, String)>,
}

/// The keys of a list of entries.
pub open spec fn flat_keys(v: Seq<(String, String)>) -> Seq<Seq<char>> {
    v.map_values(|e: (String, String)| e.0@)
}

impl View for FlatMap {
    type V = Map<Seq<char>, Seq<char>>;

    closed spec fn view(&self) -> Map<Seq<char>, Seq<char>> {
        Map::new(
            |k: Seq<char>| flat_keys(self.entries@).contains(k),
            |k: Seq<char>| self.entries@[flat_keys(self.entries@).index_of(k)].1@,
        )
    }
}

impl FlatMap {
    /// Each key is listed once.
    pub closed spec fn wf(&self) -> bool {
        flat_keys(self.entries@).no_duplicates()
    }

    /// The map with no keys.
    pub fn new() -> (r: FlatMap)
        ensures
            r.wf(),
            r@ == Map::<Seq<char>, Seq<char>>::empty(),
    {
        let r = FlatMap { entries: Vec::new() };
        proof {
            assert(flat_keys(r.entries@) =~= Seq::<Seq<char>>::empty());
            assert(r@ =~= Map::<Seq<char>, Seq<char>>::empty());
        }
        r
    }

    /// The position of `key`'s entry.
    fn position(&self, key: &str) -> (r: Option<usize>)
        ensures
            r matches Some(i) ==> i < self.entries@.len() && self.entries@[i as int].0@ == key@,
            r is None ==> !flat_keys(self.entries@).contains(key@),
    {
        let mut i: usize = 0;
        while i < self.entries.len()
            invariant
                0 <= i <= self.entries.len(),
                forall|j: int| 0 <= j < i ==> flat_keys(self.entries@)[j] != key@,
            decreases self.entries.len() - i,
        {
            if str_eq(self.entries[i].0.as_str(), key) {
                return Some(i);
            }
            proof {
                assert(flat_keys(self.entries@)[i as int] == self.entries@[i as int].0@);
            }
            i = i + 1;
        }
        None
    }

    /// The value of `key`.
    pub fn get(&self, key: &str) -> (r: Option<&String>)
        requires
            self.wf(),
        ensures
            r matches Some(v) ==> self@.contains_key(key@) && self@[key@] == v@,
            r is None ==> !self@.contains_key(key@),
    {
        match self.position(key) {
            Some(i) => {
                proof {
                    let names = flat_keys(self.entries@);
                    assert(names[i as int] == key@);
                    names.index_of_first_ensures(key@);
                }
                Some(&self.entries[i].1)
            },
            None => None,
        }
    }

    /// Sets `key` to `value`, replacing any earlier value.
    pub fn insert(&mut self, key: &str, value: String)
        requires
            old(self).wf(),
        ensures
            final(self).wf(),
            final(self)@ == old(self)@.insert(key@, value@),
    {
        let ghost m0 = self@;
        let ghost vv = value@;
        match self.position(key) {
            Some(i) => {
                let ghost e0 = self.entries@;
                self.entries.set(i, (String::from_str(key), value));
                proof {
                    let n0 = flat_keys(e0);
                    let n1 = flat_keys(self.entries@);
                    assert(n1 =~= n0);
                    assert(n0[i as int] == key@);
                    assert forall|k: Seq<char>| #[trigger] self@.contains_key(k) <==> m0.insert(key@, vv).contains_key(k) by {}
                    assert forall|k: Seq<char>| self@.contains_key(k) implies #[trigger] self@[k] == m0.insert(key@, vv)[k] by {
                        n0.index_of_first_ensures(k);
                        if k == key@ {
                            assert(n0.index_of(k) == i as int);
                        }
                    }
                    assert(self@ =~= m0.insert(key@, vv));
                }
            },
            None => {
                let ghost e0 = self.entries@;
                self.entries.push((String::from_str(key), value));
                proof {
                    let n0 = flat_keys(e0);
                    let n1 = flat_keys(self.entries@);
                    assert(n1 =~= n0.push(key@));
                    assert(n1.no_duplicates()) by {
                        assert forall|a: int, b: int| 0 <= a < b < n1.len() implies n1[a] != n1[b] by {
                            if b == n1.len() - 1 {
                                assert(n1[a] == n0[a]);
                            }
                        }
                    }
                    assert forall|k: Seq<char>| #[trigger] self@.contains_key(k) <==> m0.insert(key@, vv).contains_key(k) by {
                        vstd::seq_lib::lemma_seq_contains_after_push(n0, key@, k);
                    }
                    assert forall|k: Seq<char>| self@.contains_key(k) implies #[trigger] self@[k] == m0.insert(key@, vv)[k] by {
                        n1.index_of_first_ensures(k);
                        n0.index_of_first_ensures(k);
                        if k == key@ {
                            assert(n1[n1.len() - 1] == key@);
                            assert(n1.index_of(k) == n1.len() - 1);
                        } else {
                            let j = n0.index_of(k);
                            assert(n1[j] == n0[j]);
                            assert(n1.index_of(k) == j);
                        }
                    }
                    assert(self@ =~= m0.insert(key@, vv));
                }
            },
        }
    }

    /// The keys, in insertion order.
    pub fn keys(&self) -> (r: Vec<String>)
        ensures
            forall|k: Seq<char>| #[trigger] strs(r@).contains(k) <==> self@.contains_key(k),
    {
        let mut r: Vec<String> = Vec::new();
        let mut i: usize = 0;
        while i < self.entries.len()
            invariant
                0 <= i <= self.entries.len(),
                strs(r@) == flat_keys(self.entries@).take(i as int),
            decreases self.entries.len() - i,
        {
            let ghost r0 = strs(r@);
            r.push(self.entries[i].0.clone());
            proof {
                assert(strs(r@) =~= r0.push(self.entries@[i as int].0@));
                assert(flat_keys(self.entries@).take(i + 1) =~= flat_keys(self.entries@).take(i as int).push(
                    self.entries@[i as int].0@,
                ));
            }
            i = i + 1;
        }
        proof {
            assert(flat_keys(self.entries@).take(self.entries@.len() as int) =~= flat_keys(self.entries@));
        }
        r
    }
}

/// How a leaf value is shown (see `leaf_text`).
fn leaf_string(v: &JsonValue) -> (r: String)
    ensures
        r@ == leaf_text(*v),
{
    match v {
        JsonValue::String(s) => {
            let mut r: String = String::from_str("\"");
            r.append(s.as_str());
            r.append("\"");
            r
        },
        JsonValue::Null => String::from_str("null"),
        JsonValue::Bool(b) => if *b {
            String::from_str("true")
        } else {
            String::from_str("false")
        },
        JsonValue::Number(n) => n.clone(),
        _ => String::new(),
    }
}

/// The key of member `k` under `prefix`.
fn member_key_of(prefix: &str, k: &str) -> (r: String)
    ensures
        r@ == member_key(prefix@, k@),
{
    if prefix.is_empty() {
        String::from_str(k)
    } else {
        let mut r: String = String::from_str(prefix);
        r.append(".");
        r.append(k);
        r
    }
}

/// The key of item `i` under `prefix`.
fn item_key_of(prefix: &str, i: usize) -> (r: String)
    ensures
        r@ == item_key(prefix@, i as nat),
{
    let mut r: String = String::from_str(prefix);
    r.append("[");
    r.append(usize_to_string(i).as_str());
    r.append("]");
    r
}

/// Adds the leaves of `v`, flattened under `prefix`, to `out`; a key
/// already there takes the new value.
pub fn flatten_into(v: &JsonValue, prefix: &str, out: &mut FlatMap)
    requires
        old(out).wf(),
    ensures
        final(out).wf(),
        final(out)@ == old(out)@.union_prefer_right(flat(*v, prefix@)),
    decreases *v,
{
    let ghost base = out@;
    match v {
        JsonValue::Object(members) => {
            let mut i: usize = 0;
            proof {
                assert(base.union_prefer_right(flat_members(members@, prefix@, 0)) =~= base);
            }
            while i < members.len()
                invariant
                    0 <= i <= members.len(),
                    *v == JsonValue::Object(*members),
                    out.wf(),
                    out@ == base.union_prefer_right(flat_members(members@, prefix@, i as int)),
                decreases members.len() - i,
            {
                proof {
                    broadcast use vstd::std_specs::vec::axiom_vec_index_decreases;
                    assert(decreases_to!(*members => members[i as int]));
                    assert(decreases_to!(members[i as int] => members[i as int].1));
                    assert(decreases_to!(*v => (*v)->Object_0));
                    assert(decreases_to!(*v => members[i as int].1));
                }
                let key: String = member_key_of(prefix, members[i].0.as_str());
                let ghost before = out@;
                flatten_into(&members[i].1, key.as_str(), out);
                proof {
                    let a = flat_members(members@, prefix@, i as int);
                    let b = flat(members@[i as int].1, member_key(prefix@, members@[i as int].0@));
                    assert(flat_members(members@, prefix@, i + 1) == a.union_prefer_right(b));
                    assert(base.union_prefer_right(a).union_prefer_right(b) =~= base.union_prefer_right(
                        a.union_prefer_right(b),
                    ));
                }
                i = i + 1;
            }
        },
        JsonValue::Array(items) => {
            let mut i: usize = 0;
            proof {
                assert(base.union_prefer_right(flat_items(items@, prefix@, 0)) =~= base);
            }
            while i < items.len()
                invariant
                    0 <= i <= items.len(),
                    *v == JsonValue::Array(*items),
                    out.wf(),
                    out@ == base.union_prefer_right(flat_items(items@, prefix@, i as int)),
                decreases items.len() - i,
            {
                proof {
                    broadcast use vstd::std_specs::vec::axiom_vec_index_decreases;
                    assert(decreases_to!(*items => items[i as int]));
                    assert(decreases_to!(*v => (*v)->Array_0));
                    assert(decreases_to!(*v => items[i as int]));
                }
                let key: String = item_key_of(prefix, i);
                flatten_into(&items[i], key.as_str(), out);
                proof {
                    let a = flat_items(items@, prefix@, i as int);
                    let b = flat(items@[i as int], item_key(prefix@, i as nat));
                    assert(flat_items(items@, prefix@, i + 1) == a.union_prefer_right(b));
                    assert(base.union_prefer_right(a).union_prefer_right(b) =~= base.union_prefer_right(
                        a.union_prefer_right(b),
                    ));
                }
                i = i + 1;
            }
        },
        _ => {
            let text: String = leaf_string(v);
            out.insert(prefix, text);
            proof {
                assert(base.insert(prefix@, leaf_text(*v)) =~= base.union_prefer_right(
                    map![prefix@ => leaf_text(*v)],
                ));
            }
        },
    }
}

/// A line of a configuration diff.
#[derive(Debug, Clone, PartialEq, Eq)]
pub enum DiffLine {
    /// `- key: value`, a value that is gone or was replaced.
    Removed(String),
    /// `+ key: value`, a value that is new or replaces another.
    Added(String),
}

/// The view of a diff line: whether it adds, and its text.
pub open spec fn diff_view(l: DiffLine) -> (bool, Seq<char>) {
    match l {
        DiffLine::Removed(s) => (false, s@),
        DiffLine::Added(s) => (true, s@),
    }
}

/// `- key: value` / `+ key: value`.
pub open spec fn diff_text(sign: Seq<char>, key: Seq<char>, value: Seq<char>) -> Seq<char> {
    sign + " "@ + key + ": "@ + value
}

/// The keys of a map in character order, each once.
pub open spec fn sorted_keys(m: Map<Seq<char>, Seq<char>>) -> Seq<Seq<char>> {
    choose|t: Seq<Seq<char>>| strictly_sorted(t, false) && forall|x: Seq<char>| #[trigger] t.contains(x) <==> m.contains_key(x)
}

/// For each of `keys` (the old keys in order): its old value as removed
/// when the new document lacks it, or removed and added when the value
/// changed.
pub open spec fn removed_lines(old: Map<Seq<char>, Seq<char>>, new: Map<Seq<char>, Seq<char>>, keys: Seq<Seq<char>>) -> Seq<
    (bool, Seq<char>),
>
    decreases keys.len(),
{
    if keys.len() == 0 {
        Seq::empty()
    } else {
        let k = keys.last();
        removed_lines(old, new, keys.drop_last()) + if !new.contains_key(k) {
            seq![(false, diff_text("-"@, k, old[k]))]
        } else if new[k] != old[k] {
            seq![(false, diff_text("-"@, k, old[k])), (true, diff_text("+"@, k, new[k]))]
        } else {
            Seq::empty()
        }
    }
}

/// For each of `keys` (the new keys in order) the old document lacks: its
/// value as added.
pub open spec fn added_lines(old: Map<Seq<char>, Seq<char>>, new: Map<Seq<char>, Seq<char>>, keys: Seq<Seq<char>>) -> Seq<
    (bool, Seq<char>),
>
    decreases keys.len(),
{
    if keys.len() == 0 {
        Seq::empty()
    } else {
        let k = keys.last();
        added_lines(old, new, keys.drop_last()) + if !old.contains_key(k) {
            seq![(true, diff_text("+"@, k, new[k]))]
        } else {
            Seq::empty()
        }
    }
}

/// The diff of two flattened documents: removed and changed keys in key
/// order, then added keys in key order.
pub open spec fn diff_lines(old: Map<Seq<char>, Seq<char>>, new: Map<Seq<char>, Seq<char>>) -> Seq<(bool, Seq<char>)> {
    removed_lines(old, new, sorted_keys(old)) + added_lines(old, new, sorted_keys(new))
}

/// The diff of two stored configurations: `None` when either is not JSON
/// or nothing differs.
pub open spec fn config_diff_spec(old_json: Seq<char>, new_json: Seq<char>) -> Option<Seq<(bool, Seq<char>)>> {
    match (json_document(old_json), json_document(new_json)) {
        (Some(o), Some(n)) => {
            let lines = diff_lines(flat(o, Seq::empty()), flat(n, Seq::empty()));
            if lines.len() == 0 {
                None
            } else {
                Some(lines)
            }
        },
        _ => None,
    }
}

/// The flattened document.
fn flatten(v: &JsonValue) -> (r: FlatMap)
    ensures
        r.wf(),
        r@ == flat(*v, Seq::empty()),
{
    let mut m = FlatMap::new();
    let empty: &str = "";
    proof {
        reveal_strlit("");
        assert(empty@ =~= Seq::<char>::empty());
    }
    flatten_into(v, empty, &mut m);
    proof {
        assert(Map::<Seq<char>, Seq<char>>::empty().union_prefer_right(flat(*v, Seq::empty())) =~= flat(
            *v,
            Seq::empty(),
        ));
    }
    m
}

/// The keys of a flattened document in character order.
fn sorted_keys_of(m: &FlatMap) -> (r: Vec<String>)
    ensures
        strs(r@) == sorted_keys(m@),
        forall|x: Seq<char>| #[trigger] strs(r@).contains(x) <==> m@.contains_key(x),
{
    let keys: Vec<String> = m.keys();
    let r: Vec<String> = sorted_set(&keys, false);
    proof {
        let t = sorted_keys(m@);
        let s = strs(keys@);
        assert(strictly_sorted(strs(r@), false));
        assert(forall|x: Seq<char>| #[trigger] strs(r@).contains(x) <==> m@.contains_key(x));
        assert(strictly_sorted(t, false) && forall|x: Seq<char>| #[trigger] t.contains(x) <==> m@.contains_key(x));
        lemma_strict_unique(strs(r@), t, false);
    }
    r
}

/// The views of a list of diff lines.
pub open spec fn diff_views(v: Seq<DiffLine>) -> Seq<(bool, Seq<char>)> {
    v.map_values(|l: DiffLine| diff_view(l))
}

/// `sign key: value`.
fn diff_line_text(sign: &str, key: &str, value: &str) -> (r: String)
    ensures
        r@ == diff_text(sign@, key@, value@),
{
    let mut s: String = String::from_str(sign);
    s.append(" ");
    s.append(key);
    s.append(": ");
    s.append(value);
    s
}

/// What changed between two stored configurations (JSON texts): every
/// leaf is compared under its dotted key; a key only in the old document
/// is removed, only in the new one added, and a changed value is removed
/// and added. Removed and changed keys come first in key order, then added
/// ones in key order. `None` when either text is not JSON or nothing
/// changed.
pub fn diff_configs(old_json: &str, new_json: &str) -> (r: Option<Vec<DiffLine>>)
    ensures
        match config_diff_spec(old_json@, new_json@) {
            None => r is None,
            Some(lines) => (r matches Some(v) && diff_views(v@) == lines),
        },
{
    let old_doc: JsonValue = match parse_json(old_json) {
        Some(d) => d,
        None => {
            return None;
        },
    };
    let new_doc: JsonValue = match parse_json(new_json) {
        Some(d) => d,
        None => {
            return None;
        },
    };
    let old_map: FlatMap = flatten(&old_doc);
    let new_map: FlatMap = flatten(&new_doc);
    let old_keys: Vec<String> = sorted_keys_of(&old_map);
    let new_keys: Vec<String> = sorted_keys_of(&new_map);
    proof {
        assert forall|j: int| 0 <= j < old_keys@.len() implies old_map@.contains_key(#[trigger] strs(old_keys@)[j]) by {
            assert(strs(old_keys@).contains(strs(old_keys@)[j]));
        }
        assert forall|j: int| 0 <= j < new_keys@.len() implies new_map@.contains_key(#[trigger] strs(new_keys@)[j]) by {
            assert(strs(new_keys@).contains(strs(new_keys@)[j]));
        }
    }
    let ghost om = old_map@;
    let ghost nm = new_map@;
    let mut lines: Vec<DiffLine> = Vec::new();
    let mut i: usize = 0;
    proof {
        assert(strs(old_keys@).take(0) =~= Seq::<Seq<char>>::empty());
        assert(diff_views(lines@) =~= Seq::<(bool, Seq<char>)>::empty());
    }
    while i < old_keys.len()
        invariant
            0 <= i <= old_keys.len(),
            old_map.wf(),
            new_map.wf(),
            om == old_map@,
            nm == new_map@,
            forall|j: int| 0 <= j < old_keys@.len() ==> om.contains_key(#[trigger] strs(old_keys@)[j]),
            diff_views(lines@) == removed_lines(om, nm, strs(old_keys@).take(i as int)),
        decreases old_keys.len() - i,
    {
        let key: &str = old_keys[i].as_str();
        let ghost ks = strs(old_keys@).take(i + 1);
        proof {
            assert(ks.drop_last() =~= strs(old_keys@).take(i as int));
            assert(ks.last() == key@);
            assert(om.contains_key(strs(old_keys@)[i as int]));
        }
        let ghost l0 = diff_views(lines@);
        let old_val: &String = match old_map.get(key) {
            Some(x) => x,
            None => {
                proof {
                    assert(false);
                }
                return None;
            },
        };
        match new_map.get(key) {
            None => {
                lines.push(DiffLine::Removed(diff_line_text("-", key, old_val.as_str())));
                proof {
                    reveal_strlit("-");
                    assert(diff_views(lines@) =~= l0 + seq![(false, diff_text("-"@, key@, om[key@]))]);
                }
            },
            Some(new_val) => {
                if !str_eq(new_val.as_str(), old_val.as_str()) {
                    lines.push(DiffLine::Removed(diff_line_text("-", key, old_val.as_str())));
                    lines.push(DiffLine::Added(diff_line_text("+", key, new_val.as_str())));
                    proof {
                        reveal_strlit("-");
                        reveal_strlit("+");
                        assert(diff_views(lines@) =~= l0 + seq![
                            (false, diff_text("-"@, key@, om[key@])),
                            (true, diff_text("+"@, key@, nm[key@])),
                        ]);
                    }
                } else {
                    proof {
                        assert(diff_views(lines@) =~= l0 + Seq::<(bool, Seq<char>)>::empty());
                    }
                }
            },
        }
        i = i + 1;
    }
    proof {
        assert(strs(old_keys@).take(old_keys@.len() as int) =~= strs(old_keys@));
        assert(strs(new_keys@).take(0) =~= Seq::<Seq<char>>::empty());
    }
    let ghost removed = diff_views(lines@);
    let mut j: usize = 0;
    while j < new_keys.len()
        invariant
            0 <= j <= new_keys.len(),
            old_map.wf(),
            new_map.wf(),
            om == old_map@,
            nm == new_map@,
            forall|q: int| 0 <= q < new_keys@.len() ==> nm.contains_key(#[trigger] strs(new_keys@)[q]),
            diff_views(lines@) == removed + added_lines(om, nm, strs(new_keys@).take(j as int)),
        decreases new_keys.len() - j,
    {
        let key: &str = new_keys[j].as_str();
        let ghost ks = strs(new_keys@).take(j + 1);
        proof {
            assert(ks.drop_last() =~= strs(new_keys@).take(j as int));
            assert(ks.last() == key@);
            assert(nm.contains_key(strs(new_keys@)[j as int]));
        }
        let ghost l0 = diff_views(lines@);
        if old_map.get(key).is_none() {
            let new_val: &String = match new_map.get(key) {
                Some(x) => x,
                None => {
                    proof {
                        assert(false);
                    }
                    return None;
                },
            };
            lines.push(DiffLine::Added(diff_line_text("+", key, new_val.as_str())));
            proof {
                reveal_strlit("+");
                assert(diff_views(lines@) =~= l0 + seq![(true, diff_text("+"@, key@, nm[key@]))]);
            }
        } else {
            proof {
                assert(diff_views(lines@) =~= l0 + Seq::<(bool, Seq<char>)>::empty());
            }
        }
        j = j + 1;
    }
    proof {
        assert(strs(new_keys@).take(new_keys@.len() as int) =~= strs(new_keys@));
    }
    if lines.len() == 0 {
        None
    } else {
        Some(lines)
    }
}

} // verus!
