//! Lexicographic order on strings, and sorted string lists without repeats.
//!
//! Two orders are used: plain character order, which is how `String` keys of
//! a `BTreeMap` are ordered, and path order, in which `/` sorts before every
//! other character. On paths without empty or `.` components, path order is
//! the component-by-component order of `Path`.

use vstd::prelude::*;
use crate::text::{chars_of, strs};

verus! {

/// Character order: code point order, except that in path order `/` comes
/// before every other character.
pub open spec fn char_lt(x: char, y: char, path_order: bool) -> bool {
    if path_order && x == '/' {
        y != '/'
    } else if path_order && y == '/' {
        false
    } else {
        x < y
    }
}

/// `a` comes strictly before `b`.
pub open spec fn lex_lt(a: Seq<char>, b: Seq<char>, path_order: bool) -> bool
    decreases a.len(),
{
    if b.len() == 0 {
        false
    } else if a.len() == 0 {
        true
    } else if a[0] != b[0] {
        char_lt(a[0], b[0], path_order)
    } else {
        lex_lt(a.drop_first(), b.drop_first(), path_order)
    }
}

/// Every entry comes strictly before every later entry.
pub open spec fn strictly_sorted(s: Seq<Seq<char>>, path_order: bool) -> bool {
    forall|i: int, j: int| 0 <= i < j < s.len() ==> lex_lt(#[trigger] s[i], #[trigger] s[j], path_order)
}

pub proof fn lemma_lex_irreflexive(a: Seq<char>, path_order: bool)
    ensures
        !lex_lt(a, a, path_order),
    decreases a.len(),
{
    if a.len() > 0 {
        lemma_lex_irreflexive(a.drop_first(), path_order);
    }
}

pub proof fn lemma_lex_transitive(a: Seq<char>, b: Seq<char>, c: Seq<char>, path_order: bool)
    requires
        lex_lt(a, b, path_order),
        lex_lt(b, c, path_order),
    ensures
        lex_lt(a, c, path_order),
    decreases a.len(),
{
    if a.len() > 0 && a[0] == b[0] && b[0] == c[0] {
        lemma_lex_transitive(a.drop_first(), b.drop_first(), c.drop_first(), path_order);
    }
}

pub proof fn lemma_lex_total(a: Seq<char>, b: Seq<char>, path_order: bool)
    requires
        a != b,
    ensures
        lex_lt(a, b, path_order) || lex_lt(b, a, path_order),
    decreases a.len(),
{
    if a.len() > 0 && b.len() > 0 {
        if a[0] == b[0] {
            if a.drop_first() == b.drop_first() {
                assert(a.drop_first().len() == a.len() - 1);
                assert(b.drop_first().len() == b.len() - 1);
                assert(a.len() == b.len());
                assert(a =~= b) by {
                    assert forall|i: int| 0 <= i < a.len() implies a[i] == b[i] by {
                        if i > 0 {
                            assert(a[i] == a.drop_first()[i - 1]);
                            assert(b[i] == b.drop_first()[i - 1]);
                        }
                    }
                }
            } else {
                lemma_lex_total(a.drop_first(), b.drop_first(), path_order);
            }
        }
    } else if a.len() == 0 && b.len() == 0 {
        assert(a =~= b);
    }
}

pub proof fn lemma_lex_asymmetric(a: Seq<char>, b: Seq<char>, path_order: bool)
    requires
        lex_lt(a, b, path_order),
    ensures
        !lex_lt(b, a, path_order),
{
    if lex_lt(b, a, path_order) {
        lemma_lex_transitive(a, b, a, path_order);
        lemma_lex_irreflexive(a, path_order);
    }
}

/// Whether `a` comes strictly before `b`.
pub fn lex_less(a: &str, b: &str, path_order: bool) -> (r: bool)
    ensures
        r == lex_lt(a@, b@, path_order),
{
    let x = chars_of(a);
    let y = chars_of(b);
    let mut i: usize = 0;
    proof {
        assert(a@.skip(0) =~= a@);
        assert(b@.skip(0) =~= b@);
    }
    while i < x.len() && i < y.len()
        invariant
            0 <= i <= x.len(),
            i <= y.len(),
            x@ == a@,
            y@ == b@,
            lex_lt(a@, b@, path_order) == lex_lt(a@.skip(i as int), b@.skip(i as int), path_order),
        decreases x.len() - i,
    {
        let cx: char = x[i];
        let cy: char = y[i];
        proof {
            assert(a@.skip(i as int)[0] == cx);
            assert(b@.skip(i as int)[0] == cy);
            assert(a@.skip(i as int).len() > 0 && b@.skip(i as int).len() > 0);
        }
        if cx != cy {
            if path_order && cx == '/' {
                return true;
            }
            if path_order && cy == '/' {
                return false;
            }
            return cx < cy;
        }
        proof {
            assert(a@.skip(i as int).drop_first() =~= a@.skip(i + 1));
            assert(b@.skip(i as int).drop_first() =~= b@.skip(i + 1));
        }
        i = i + 1;
    }
    i == x.len() && i < y.len()
}

/// Inserts `x` into the sorted list `v` at its place, unless it is already
/// there. Returns whether it was inserted.
pub fn sorted_insert(v: &mut Vec<String>, x: String, path_order: bool) -> (inserted: bool)
    requires
        strictly_sorted(strs(old(v)@), path_order),
    ensures
        strictly_sorted(strs(final(v)@), path_order),
        inserted == !strs(old(v)@).contains(x@),
        forall|s: Seq<char>| #[trigger] strs(final(v)@).contains(s) <==> strs(old(v)@).contains(s) || s == x@,
        final(v)@.len() == old(v)@.len() + if inserted { 1int } else { 0int },
{
    let ghost s0 = strs(v@);
    let mut k: usize = 0;
    while k < v.len() && lex_less(v[k].as_str(), x.as_str(), path_order)
        invariant
            0 <= k <= v.len(),
            s0 == strs(v@),
            strictly_sorted(s0, path_order),
            forall|i: int| 0 <= i < k ==> lex_lt(#[trigger] s0[i], x@, path_order),
        decreases v.len() - k,
    {
        k = k + 1;
    }
    if k < v.len() && v[k] == x {
        proof {
            assert(s0[k as int] == x@);
        }
        return false;
    }
    proof {
        if k < v.len() {
            assert(!lex_lt(s0[k as int], x@, path_order));
            lemma_lex_total(s0[k as int], x@, path_order);
        }
        assert forall|j: int| k <= j < s0.len() implies lex_lt(x@, #[trigger] s0[j], path_order) by {
            if j > k {
                lemma_lex_transitive(x@, s0[k as int], s0[j], path_order);
            }
        }
        assert forall|i: int| 0 <= i < s0.len() implies #[trigger] s0[i] != x@ by {
            if i < k {
                lemma_lex_irreflexive(x@, path_order);
            } else {
                lemma_lex_irreflexive(x@, path_order);
            }
        }
    }
    let ghost xv = x@;
    v.insert(k, x);
    proof {
        let s1 = strs(v@);
        assert(s1 =~= s0.insert(k as int, xv));
        assert forall|i: int, j: int| 0 <= i < j < s1.len() implies lex_lt(#[trigger] s1[i], #[trigger] s1[j], path_order) by {
            if j < k {
                assert(s1[i] == s0[i] && s1[j] == s0[j]);
            } else if j == k {
                assert(s1[i] == s0[i]);
            } else if i < k {
                assert(s1[i] == s0[i] && s1[j] == s0[j - 1]);
                lemma_lex_transitive(s0[i], xv, s0[j - 1], path_order);
            } else if i == k {
                assert(s1[j] == s0[j - 1]);
            } else {
                assert(s1[i] == s0[i - 1] && s1[j] == s0[j - 1]);
            }
        }
        assert forall|s: Seq<char>| #[trigger] s1.contains(s) <==> s0.contains(s) || s == xv by {
            if s1.contains(s) {
                let t = choose|t: int| 0 <= t < s1.len() && s1[t] == s;
                if t < k {
                    assert(s0[t] == s);
                } else if t > k {
                    assert(s0[t - 1] == s);
                }
            }
            if s0.contains(s) {
                let t = choose|t: int| 0 <= t < s0.len() && s0[t] == s;
                if t < k {
                    assert(s1[t] == s);
                } else {
                    assert(s1[t + 1] == s);
                }
            }
            if s == xv {
                assert(s1[k as int] == s);
            }
        }
    }
    true
}

/// No entry comes strictly before an earlier one.
pub open spec fn sorted_le(s: Seq<Seq<char>>, path_order: bool) -> bool {
    forall|i: int, j: int| 0 <= i < j < s.len() ==> !lex_lt(#[trigger] s[j], #[trigger] s[i], path_order)
}

/// The strings of `v` sorted (`slice::sort`): the same strings, repeats
/// included, in order.
pub fn sort_strings(v: &Vec<String>, path_order: bool) -> (r: Vec<String>)
    ensures
        sorted_le(strs(r@), path_order),
        strs(r@).to_multiset() == strs(v@).to_multiset(),
        strs(r@) == sorted_of(strs(v@), path_order),
{
    let mut r: Vec<String> = Vec::new();
    let mut i: usize = 0;
    proof {
        assert(strs(v@).take(0) =~= Seq::<Seq<char>>::empty());
        assert(strs(r@) =~= Seq::<Seq<char>>::empty());
    }
    while i < v.len()
        invariant
            0 <= i <= v.len(),
            sorted_le(strs(r@), path_order),
            strs(r@).to_multiset() == strs(v@).take(i as int).to_multiset(),
        decreases v.len() - i,
    {
        let ghost s0 = strs(r@);
        let x: &String = &v[i];
        let mut k: usize = 0;
        while k < r.len() && !lex_less(x.as_str(), r[k].as_str(), path_order)
            invariant
                0 <= k <= r.len(),
                s0 == strs(r@),
                forall|j: int| 0 <= j < k ==> !lex_lt(x@, #[trigger] s0[j], path_order),
            decreases r.len() - k,
        {
            k = k + 1;
        }
        proof {
            assert forall|j: int| k <= j < s0.len() implies !lex_lt(#[trigger] s0[j], x@, path_order) by {
                if lex_lt(s0[j], x@, path_order) {
                    lemma_lex_transitive(s0[j], x@, s0[k as int], path_order);
                    if j > k {
                        assert(!lex_lt(s0[j], s0[k as int], path_order));
                    } else {
                        lemma_lex_irreflexive(s0[j], path_order);
                    }
                }
            }
        }
        let ghost xv = x@;
        r.insert(k, x.clone());
        proof {
            let s1 = strs(r@);
            assert(s1 =~= s0.insert(k as int, xv));
            assert forall|a: int, b: int| 0 <= a < b < s1.len() implies !lex_lt(#[trigger] s1[b], #[trigger] s1[a], path_order) by {
                if b < k {
                    assert(s1[a] == s0[a] && s1[b] == s0[b]);
                } else if b == k {
                    assert(s1[a] == s0[a]);
                } else if a < k {
                    assert(s1[a] == s0[a] && s1[b] == s0[b - 1]);
                    if lex_lt(s0[b - 1], s0[a], path_order) {
                        assert(!lex_lt(s0[b - 1], xv, path_order));
                        assert(!lex_lt(xv, s0[a], path_order));
                        lemma_lex_total(s0[a], xv, path_order);
                        if s0[a] == xv {
                        } else {
                            lemma_lex_transitive(s0[b - 1], s0[a], xv, path_order);
                        }
                    }
                } else if a == k {
                    assert(s1[b] == s0[b - 1]);
                } else {
                    assert(s1[a] == s0[a - 1] && s1[b] == s0[b - 1]);
                }
            }
            assert(strs(v@).take(i + 1) =~= strs(v@).take(i as int).push(xv));
            vstd::seq_lib::to_multiset_insert(s0, k as int, xv);
            vstd::seq_lib::to_multiset_build(strs(v@).take(i as int), xv);
            assert(s1.to_multiset() == s0.to_multiset().insert(xv));
        }
        i = i + 1;
    }
    proof {
        assert(strs(v@).take(v.len() as int) =~= strs(v@));
        lemma_is_sorted_of(strs(r@), strs(v@), path_order);
    }
    r
}

/// The sorted arrangement of `s`: its entries, repeats included, in order.
pub open spec fn sorted_of(s: Seq<Seq<char>>, path_order: bool) -> Seq<Seq<char>> {
    choose|t: Seq<Seq<char>>| sorted_le(t, path_order) && t.to_multiset() == s.to_multiset()
}

/// Two sorted lists with the same entries are the same list.
pub proof fn lemma_sorted_unique(a: Seq<Seq<char>>, b: Seq<Seq<char>>, path_order: bool)
    requires
        sorted_le(a, path_order),
        sorted_le(b, path_order),
        a.to_multiset() == b.to_multiset(),
    ensures
        a == b,
    decreases a.len(),
{
    vstd::seq_lib::to_multiset_len(a);
    vstd::seq_lib::to_multiset_len(b);
    if a.len() == 0 {
        assert(a =~= b);
    } else {
        let x = a[0];
        let y = b[0];
        vstd::seq_lib::to_multiset_contains(a, y);
        vstd::seq_lib::to_multiset_contains(b, y);
        vstd::seq_lib::to_multiset_contains(a, x);
        vstd::seq_lib::to_multiset_contains(b, x);
        assert(b.contains(y));
        assert(a.contains(x));
        let i = choose|i: int| 0 <= i < a.len() && a[i] == y;
        let j = choose|j: int| 0 <= j < b.len() && b[j] == x;
        if i > 0 {
            assert(!lex_lt(a[i], a[0], path_order));
        }
        if j > 0 {
            assert(!lex_lt(b[j], b[0], path_order));
        }
        if x != y {
            lemma_lex_total(x, y, path_order);
            if i == 0 {
                lemma_lex_irreflexive(x, path_order);
            }
            if j == 0 {
                lemma_lex_irreflexive(y, path_order);
            }
        }
        assert(x == y);
        vstd::seq_lib::to_multiset_remove(a, 0);
        vstd::seq_lib::to_multiset_remove(b, 0);
        assert(a.remove(0) =~= a.drop_first());
        assert(b.remove(0) =~= b.drop_first());
        let a1 = a.drop_first();
        let b1 = b.drop_first();
        assert(sorted_le(a1, path_order)) by {
            assert forall|p: int, q: int| 0 <= p < q < a1.len() implies !lex_lt(#[trigger] a1[q], #[trigger] a1[p], path_order) by {
                assert(a1[q] == a[q + 1] && a1[p] == a[p + 1]);
            }
        }
        assert(sorted_le(b1, path_order)) by {
            assert forall|p: int, q: int| 0 <= p < q < b1.len() implies !lex_lt(#[trigger] b1[q], #[trigger] b1[p], path_order) by {
                assert(b1[q] == b[q + 1] && b1[p] == b[p + 1]);
            }
        }
        lemma_sorted_unique(a1, b1, path_order);
        assert(a =~= b) by {
            assert forall|k: int| 0 <= k < a.len() implies a[k] == b[k] by {
                if k > 0 {
                    assert(a[k] == a1[k - 1]);
                    assert(b[k] == b1[k - 1]);
                }
            }
        }
    }
}

/// A sorted list holding the entries of `s` is its sorted arrangement.
pub proof fn lemma_is_sorted_of(t: Seq<Seq<char>>, s: Seq<Seq<char>>, path_order: bool)
    requires
        sorted_le(t, path_order),
        t.to_multiset() == s.to_multiset(),
    ensures
        t == sorted_of(s, path_order),
{
    let u = sorted_of(s, path_order);
    assert(sorted_le(u, path_order) && u.to_multiset() == s.to_multiset());
    lemma_sorted_unique(t, u, path_order);
}

/// The entries of `s` in order, each once.
pub open spec fn sorted_set_of(s: Seq<Seq<char>>, path_order: bool) -> Seq<Seq<char>> {
    choose|t: Seq<Seq<char>>| strictly_sorted(t, path_order) && forall|x: Seq<char>| #[trigger] t.contains(x) <==> s.contains(x)
}

/// In a strictly sorted list, the first entry is not among the rest.
proof fn lemma_first_not_in_rest(a: Seq<Seq<char>>, path_order: bool)
    requires
        strictly_sorted(a, path_order),
        a.len() > 0,
    ensures
        forall|x: Seq<char>| #[trigger] a.drop_first().contains(x) <==> a.contains(x) && x != a[0],
        strictly_sorted(a.drop_first(), path_order),
{
    let a1 = a.drop_first();
    assert forall|x: Seq<char>| #[trigger] a1.contains(x) <==> a.contains(x) && x != a[0] by {
        if a1.contains(x) {
            let k = choose|k: int| 0 <= k < a1.len() && a1[k] == x;
            assert(a[k + 1] == x);
            assert(lex_lt(a[0], a[k + 1], path_order));
            lemma_lex_irreflexive(x, path_order);
        }
        if a.contains(x) && x != a[0] {
            let k = choose|k: int| 0 <= k < a.len() && a[k] == x;
            assert(k != 0);
            assert(a1[k - 1] == x);
        }
    }
    assert forall|p: int, q: int| 0 <= p < q < a1.len() implies lex_lt(#[trigger] a1[p], #[trigger] a1[q], path_order) by {
        assert(a1[p] == a[p + 1] && a1[q] == a[q + 1]);
    }
}

/// Two strictly sorted lists with the same entries are the same list.
pub proof fn lemma_strict_unique(a: Seq<Seq<char>>, b: Seq<Seq<char>>, path_order: bool)
    requires
        strictly_sorted(a, path_order),
        strictly_sorted(b, path_order),
        forall|x: Seq<char>| #[trigger] a.contains(x) <==> b.contains(x),
    ensures
        a == b,
    decreases a.len(),
{
    if a.len() == 0 {
        if b.len() > 0 {
            assert(b.contains(b[0]));
            assert(a.contains(b[0]));
            let k = choose|k: int| 0 <= k < a.len() && a[k] == b[0];
            assert(false);
        }
        assert(a =~= b);
    } else {
        assert(a.contains(a[0]));
        assert(b.contains(a[0]));
        assert(b.len() > 0);
        assert(b.contains(b[0]));
        assert(a.contains(b[0]));
        if a[0] != b[0] {
            let i = choose|i: int| 0 <= i < a.len() && a[i] == b[0];
            let j = choose|j: int| 0 <= j < b.len() && b[j] == a[0];
            assert(i > 0 && j > 0);
            assert(lex_lt(a[0], a[i], path_order));
            assert(lex_lt(b[0], b[j], path_order));
            lemma_lex_asymmetric(a[0], b[0], path_order);
        }
        lemma_first_not_in_rest(a, path_order);
        lemma_first_not_in_rest(b, path_order);
        lemma_strict_unique(a.drop_first(), b.drop_first(), path_order);
        assert(a =~= b) by {
            assert forall|k: int| 0 <= k < a.len() implies a[k] == b[k] by {
                if k > 0 {
                    assert(a[k] == a.drop_first()[k - 1]);
                    assert(b[k] == b.drop_first()[k - 1]);
                }
            }
        }
    }
}

/// The entries of `v` in order, each once.
pub fn sorted_set(v: &Vec<String>, path_order: bool) -> (r: Vec<String>)
    ensures
        strs(r@) == sorted_set_of(strs(v@), path_order),
        strictly_sorted(strs(r@), path_order),
        forall|x: Seq<char>| #[trigger] strs(r@).contains(x) <==> strs(v@).contains(x),
{
    let mut r: Vec<String> = Vec::new();
    proof {
        assert(strictly_sorted(strs(r@), path_order));
    }
    let mut i: usize = 0;
    while i < v.len()
        invariant
            0 <= i <= v.len(),
            strictly_sorted(strs(r@), path_order),
            forall|x: Seq<char>| #[trigger] strs(r@).contains(x) <==> strs(v@).take(i as int).contains(x),
        decreases v.len() - i,
    {
        sorted_insert(&mut r, v[i].clone(), path_order);
        proof {
            let t = strs(v@).take(i + 1);
            assert(t =~= strs(v@).take(i as int).push(v@[i as int]@));
            assert forall|x: Seq<char>| #[trigger] strs(r@).contains(x) <==> t.contains(x) by {
                vstd::seq_lib::lemma_seq_contains_after_push(strs(v@).take(i as int), v@[i as int]@, x);
            }
        }
        i = i + 1;
    }
    proof {
        assert(strs(v@).take(v@.len() as int) =~= strs(v@));
        let t = sorted_set_of(strs(v@), path_order);
        assert(strictly_sorted(strs(r@), path_order) && forall|x: Seq<char>| #[trigger] strs(r@).contains(x) <==> strs(v@).contains(x));
        lemma_strict_unique(strs(r@), t, path_order);
    }
    r
}

} // verus!
