//! JSON values as text: the abstract value of a `JsonValue`, deep copies,
//! and the compact and pretty texts `serde_json` writes for a value.

use vstd::prelude::*;
use crate::config_diff::JsonValue;
use crate::text::clone_string;

verus! {

/// The abstract value of a JSON value: texts as character sequences, the
/// items of an array and the members of an object in order.
pub enum JsonView {
    Null,
    Bool(bool),
    Number(Seq<char>),
    String(Seq<char>),
    Array(Seq<JsonView>),
    Object(Seq<(Seq<char>, JsonView)>),
}

/// The abstract value of `v`.
pub open spec fn json_view(v: JsonValue) -> JsonView
    decreases v, 0int,
{
    match v {
        JsonValue::Null => JsonView::Null,
        JsonValue::Bool(b) => JsonView::Bool(b),
        JsonValue::Number(n) => JsonView::Number(n@),
        JsonValue::String(s) => JsonView::String(s@),
        JsonValue::Array(items) => JsonView::Array(items_view(items@, items@.len() as int)),
        JsonValue::Object(members) => JsonView::Object(members_view(members@, members@.len() as int)),
    }
}

/// The abstract values of the first `k` items.
pub open spec fn items_view(items: Seq<JsonValue>, k: int) -> Seq<JsonView>
    decreases items, k,
{
    if k <= 0 || k > items.len() {
        Seq::empty()
    } else {
        items_view(items, k - 1).push(json_view(items[k - 1]))
    }
}

/// The abstract values of the first `k` members.
pub open spec fn members_view(members: Seq<(String, JsonValue)>, k: int) -> Seq<(Seq<char>, JsonView)>
    decreases members, k,
{
    if k <= 0 || k > members.len() {
        Seq::empty()
    } else {
        members_view(members, k - 1).push((members[k - 1].0@, json_view(members[k - 1].1)))
    }
}

/// Items that agree up to `k` have the same view up to `k`.
proof fn lemma_items_view_agree(s: Seq<JsonValue>, t: Seq<JsonValue>, k: int)
    requires
        0 <= k <= s.len(),
        k <= t.len(),
        forall|j: int| 0 <= j < k ==> s[j] == t[j],
    ensures
        items_view(s, k) == items_view(t, k),
    decreases k,
{
    if k > 0 {
        lemma_items_view_agree(s, t, k - 1);
    }
}

/// Members that agree up to `k` have the same view up to `k`.
proof fn lemma_members_view_agree(s: Seq<(String, JsonValue)>, t: Seq<(String, JsonValue)>, k: int)
    requires
        0 <= k <= s.len(),
        k <= t.len(),
        forall|j: int| 0 <= j < k ==> s[j] == t[j],
    ensures
        members_view(s, k) == members_view(t, k),
    decreases k,
{
    if k > 0 {
        lemma_members_view_agree(s, t, k - 1);
    }
}

/// The view of the first `k` members has one entry per member.
pub proof fn lemma_members_view_index(s: Seq<(String, JsonValue)>, k: int)
    requires
        0 <= k <= s.len(),
    ensures
        members_view(s, k).len() == k,
        forall|j: int| 0 <= j < k ==> #[trigger] members_view(s, k)[j] == (s[j].0@, json_view(s[j].1)),
    decreases k,
{
    if k > 0 {
        lemma_members_view_index(s, k - 1);
    }
}

/// A member appended to a list adds its view at the end.
pub proof fn lemma_members_view_push(s: Seq<(String, JsonValue)>, e: (String, JsonValue))
    ensures
        members_view(s.push(e), s.len() + 1int) == members_view(s, s.len() as int).push((e.0@, json_view(e.1))),
{
    lemma_members_view_agree(s.push(e), s, s.len() as int);
}

/// An item appended to a list adds its view at the end.
pub proof fn lemma_items_view_push(s: Seq<JsonValue>, e: JsonValue)
    ensures
        items_view(s.push(e), s.len() + 1int) == items_view(s, s.len() as int).push(json_view(e)),
{
    lemma_items_view_agree(s.push(e), s, s.len() as int);
}

/// A copy of `v` with the same abstract value.
pub fn json_copy(v: &JsonValue) -> (r: JsonValue)
    ensures
        json_view(r) == json_view(*v),
    decreases *v,
{
    match v {
        JsonValue::Null => JsonValue::Null,
        JsonValue::Bool(b) => JsonValue::Bool(*b),
        JsonValue::Number(n) => JsonValue::Number(clone_string(n)),
        JsonValue::String(s) => JsonValue::String(clone_string(s)),
        JsonValue::Array(items) => {
            let mut out: Vec<JsonValue> = Vec::new();
            let mut i: usize = 0;
            while i < items.len()
                invariant
                    0 <= i <= items.len(),
                    *v == JsonValue::Array(*items),
                    out@.len() == i,
                    items_view(out@, i as int) == items_view(items@, i as int),
                decreases items.len() - i,
            {
                proof {
                    broadcast use vstd::std_specs::vec::axiom_vec_index_decreases;
                    assert(decreases_to!(*items => items[i as int]));
                    assert(decreases_to!(*v => (*v)->Array_0));
                    assert(decreases_to!(*v => items[i as int]));
                }
                let x: JsonValue = json_copy(&items[i]);
                let ghost before = out@;
                out.push(x);
                proof {
                    lemma_items_view_push(before, x);
                }
                i = i + 1;
            }
            JsonValue::Array(out)
        },
        JsonValue::Object(members) => {
            let mut out: Vec<(String, JsonValue)> = Vec::new();
            let mut i: usize = 0;
            while i < members.len()
                invariant
                    0 <= i <= members.len(),
                    *v == JsonValue::Object(*members),
                    out@.len() == i,
                    members_view(out@, i as int) == members_view(members@, i as int),
                decreases members.len() - i,
            {
                proof {
                    broadcast use vstd::std_specs::vec::axiom_vec_index_decreases;
                    assert(decreases_to!(*members => members[i as int]));
                    assert(decreases_to!(members[i as int] => members[i as int].1));
                    assert(decreases_to!(*v => (*v)->Object_0));
                    assert(decreases_to!(*v => members[i as int].1));
                }
                let k: String = clone_string(&members[i].0);
                let x: JsonValue = json_copy(&members[i].1);
                let ghost e = (k, x);
                let ghost before = out@;
                out.push((k, x));
                proof {
                    lemma_members_view_push(before, e);
                }
                i = i + 1;
            }
            JsonValue::Object(out)
        },
    }
}

/// The text `serde_json::to_string` writes for a value, the value read as
/// a `serde_json::Value` (a number from its text). A function of the
/// abstract value alone.
pub uninterp spec fn json_text(v: JsonView) -> Seq<char>;

/// The text `serde_json::to_string_pretty` writes for a value, the value
/// read as a `serde_json::Value` (a number from its text). A function of
/// the abstract value alone.
pub uninterp spec fn json_pretty_text(v: JsonView) -> Seq<char>;

/// Converts to a `serde_json::Value`, variant for variant; a number is
/// read back from its text.
#[verifier::external_body]
fn json_value_back(v: &JsonValue) -> serde_json::Value {
    match v {
        JsonValue::Null => serde_json::Value::Null,
        JsonValue::Bool(b) => serde_json::Value::Bool(*b),
        JsonValue::Number(n) => n.parse::<serde_json::Number>().map(serde_json::Value::Number).unwrap_or_else(|_| serde_json::Value::String(n.clone())),
        JsonValue::String(s) => serde_json::Value::String(s.clone()),
        JsonValue::Array(a) => serde_json::Value::Array(a.iter().map(json_value_back).collect()),
        JsonValue::Object(o) => serde_json::Value::Object(o.iter().map(|(k, x)| (k.clone(), json_value_back(x))).collect()),
    }
}

/// `serde_json::to_string`: the compact JSON text of `v`. The contract
/// names the text as a function of the value's abstract value; the
/// serializer itself is not restated.
#[verifier::external_body]
pub(crate) fn json_to_string(v: &JsonValue) -> (r: String)
    ensures
        r@ == json_text(json_view(*v)),
{
    serde_json::to_string(&json_value_back(v)).unwrap_or_default()
}

/// `serde_json::to_string_pretty`: the indented JSON text of `v`. The
/// contract names the text as a function of the value's abstract value;
/// the serializer itself is not restated.
#[verifier::external_body]
pub(crate) fn json_to_string_pretty(v: &JsonValue) -> (r: String)
    ensures
        r@ == json_pretty_text(json_view(*v)),
{
    serde_json::to_string_pretty(&json_value_back(v)).unwrap_or_default()
}

} // verus!
