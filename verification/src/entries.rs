use crate::order::{
    key_eq, key_gt, key_lt, lemma_key_eq_lt, lemma_key_eq_reflexive, lemma_key_eq_symmetric,
    lemma_key_lt_eq, lemma_key_lt_flip, lemma_key_lt_transitive, total_order,
};
use vstd::prelude::*;

verus! {

/// Holds of the entries whose key sorts strictly before `k`.
pub open spec fn sorts_before<K: Ord, V>(k: K) -> spec_fn((K, V)) -> bool {
    |e: (K, V)| key_lt(e.0, k)
}

/// Holds of the entries whose key sorts strictly after `k`.
pub open spec fn sorts_after<K: Ord, V>(k: K) -> spec_fn((K, V)) -> bool {
    |e: (K, V)| key_lt(k, e.0)
}

/// The keys of `s` are strictly ascending.
#[verifier::opaque]
pub open spec fn ascending<K: Ord, V>(s: Seq<(K, V)>) -> bool {
    forall|i: int, j: int| 0 <= i < j < s.len() ==> key_lt(#[trigger] s[i].0, #[trigger] s[j].0)
}

/// The value of the first entry of `s` whose key compares equal to `k`.
pub open spec fn lookup<K: Ord, V>(s: Seq<(K, V)>, k: K) -> Option<V>
    decreases s.len(),
{
    if s.len() == 0 {
        None
    } else if key_eq(k, s[0].0) {
        Some(s[0].1)
    } else {
        lookup(s.drop_first(), k)
    }
}

/// The entries after `k` has been bound to `v`: what sorted before `k`, the
/// new entry, what sorted after `k`.
#[verifier::opaque]
pub open spec fn with_entry<K: Ord, V>(s: Seq<(K, V)>, k: K, v: V) -> Seq<(K, V)> {
    s.filter(sorts_before(k)).push((k, v)) + s.filter(sorts_after(k))
}

/// The entries after `k` has been removed: what sorted before `k`, then what
/// sorted after it.
#[verifier::opaque]
pub open spec fn without_key<K: Ord, V>(s: Seq<(K, V)>, k: K) -> Seq<(K, V)> {
    s.filter(sorts_before(k)) + s.filter(sorts_after(k))
}

/// The sequence without entries is ascending.
pub proof fn lemma_ascending_empty<K: Ord, V>()
    ensures
        ascending(Seq::<(K, V)>::empty()),
{
    reveal(ascending);
}

/// A lookup finds nothing where no key compares equal.
pub proof fn lemma_lookup_none<K: Ord, V>(s: Seq<(K, V)>, k: K)
    requires
        forall|i: int| 0 <= i < s.len() ==> !key_eq(k, #[trigger] s[i].0),
    ensures
        lookup(s, k) is None,
    decreases s.len(),
{
    if s.len() > 0 {
        assert(!key_eq(k, s[0].0));
        let t = s.drop_first();
        assert forall|i: int| 0 <= i < t.len() implies !key_eq(k, #[trigger] t[i].0) by {
            assert(t[i] == s[i + 1]);
        }
        lemma_lookup_none(t, k);
    }
}

/// A lookup in a concatenation looks in the first part, then in the second.
pub proof fn lemma_lookup_concat<K: Ord, V>(a: Seq<(K, V)>, b: Seq<(K, V)>, k: K)
    ensures
        lookup(a + b, k) == if lookup(a, k) is Some {
            lookup(a, k)
        } else {
            lookup(b, k)
        },
    decreases a.len(),
{
    if a.len() == 0 {
        assert(a + b =~= b);
    } else {
        assert((a + b).drop_first() =~= a.drop_first() + b);
        assert((a + b)[0] == a[0]);
        lemma_lookup_concat(a.drop_first(), b, k);
    }
}

/// Around an entry `e` of an ascending sequence, both sides are ascending,
/// the left side sorts before `e` and the right side after it.
pub proof fn lemma_ascending_parts<K: Ord, V>(l: Seq<(K, V)>, e: (K, V), r: Seq<(K, V)>)
    requires
        ascending(l.push(e) + r),
    ensures
        ascending(l),
        ascending(r),
        forall|i: int| 0 <= i < l.len() ==> key_lt(#[trigger] l[i].0, e.0),
        forall|i: int| 0 <= i < r.len() ==> key_lt(e.0, #[trigger] r[i].0),
{
    reveal(ascending);
    let s = l.push(e) + r;
    let n = l.len() as int;
    assert(s[n] == e);
    assert forall|i: int, j: int| 0 <= i < j < l.len() implies key_lt(
        #[trigger] l[i].0,
        #[trigger] l[j].0,
    ) by {
        assert(s[i] == l[i] && s[j] == l[j]);
    }
    assert forall|i: int, j: int| 0 <= i < j < r.len() implies key_lt(
        #[trigger] r[i].0,
        #[trigger] r[j].0,
    ) by {
        assert(s[n + 1 + i] == r[i] && s[n + 1 + j] == r[j]);
    }
    assert forall|i: int| 0 <= i < l.len() implies key_lt(#[trigger] l[i].0, e.0) by {
        assert(s[i] == l[i]);
    }
    assert forall|i: int| 0 <= i < r.len() implies key_lt(e.0, #[trigger] r[i].0) by {
        assert(s[n + 1 + i] == r[i]);
    }
}

/// Two ascending sequences around an entry that sorts between them make an
/// ascending sequence.
pub proof fn lemma_ascending_join<K: Ord, V>(l: Seq<(K, V)>, e: (K, V), r: Seq<(K, V)>)
    requires
        total_order::<K>(),
        ascending(l),
        ascending(r),
        forall|i: int| 0 <= i < l.len() ==> key_lt(#[trigger] l[i].0, e.0),
        forall|i: int| 0 <= i < r.len() ==> key_lt(e.0, #[trigger] r[i].0),
    ensures
        ascending(l.push(e) + r),
{
    reveal(ascending);
    let s = l.push(e) + r;
    let n = l.len() as int;
    assert forall|i: int, j: int| 0 <= i < j < s.len() implies key_lt(
        #[trigger] s[i].0,
        #[trigger] s[j].0,
    ) by {
        if j < n {
            assert(s[i] == l[i] && s[j] == l[j]);
        } else if j == n {
            assert(s[i] == l[i] && s[j] == e);
        } else if i < n {
            assert(s[i] == l[i] && s[j] == r[j - n - 1]);
            lemma_key_lt_transitive(l[i].0, e.0, r[j - n - 1].0);
        } else if i == n {
            assert(s[i] == e && s[j] == r[j - n - 1]);
        } else {
            assert(s[i] == r[i - n - 1] && s[j] == r[j - n - 1]);
        }
    }
}

/// In an ascending sequence, a key that sorts before the entry `e` is looked
/// up on the left of `e`.
pub proof fn lemma_lookup_left<K: Ord, V>(l: Seq<(K, V)>, e: (K, V), r: Seq<(K, V)>, k: K)
    requires
        total_order::<K>(),
        ascending(l.push(e) + r),
        key_lt(k, e.0),
    ensures
        lookup(l.push(e) + r, k) == lookup(l, k),
{
    reveal(ascending);
    lemma_ascending_parts(l, e, r);
    let rest = seq![e] + r;
    assert(l.push(e) + r =~= l + rest);
    assert forall|i: int| 0 <= i < rest.len() implies !key_eq(k, #[trigger] rest[i].0) by {
        if i > 0 {
            assert(rest[i] == r[i - 1]);
            lemma_key_lt_transitive(k, e.0, r[i - 1].0);
        }
    }
    lemma_lookup_none(rest, k);
    lemma_lookup_concat(l, rest, k);
}

/// In an ascending sequence, a key that compares equal to the key of the
/// entry `e` is bound to the value of `e`.
pub proof fn lemma_lookup_here<K: Ord, V>(l: Seq<(K, V)>, e: (K, V), r: Seq<(K, V)>, k: K)
    requires
        total_order::<K>(),
        ascending(l.push(e) + r),
        key_eq(k, e.0),
    ensures
        lookup(l.push(e) + r, k) == Some(e.1),
{
    reveal(ascending);
    lemma_ascending_parts(l, e, r);
    let rest = seq![e] + r;
    assert(l.push(e) + r =~= l + rest);
    assert forall|i: int| 0 <= i < l.len() implies !key_eq(k, #[trigger] l[i].0) by {
        if key_eq(k, l[i].0) {
            lemma_key_eq_symmetric(k, l[i].0);
            lemma_key_eq_lt(k, l[i].0, e.0);
        }
    }
    lemma_lookup_none(l, k);
    lemma_lookup_concat(l, rest, k);
    assert(rest[0] == e);
}

/// In an ascending sequence, a key that sorts after the entry `e` is looked
/// up on the right of `e`.
pub proof fn lemma_lookup_right<K: Ord, V>(l: Seq<(K, V)>, e: (K, V), r: Seq<(K, V)>, k: K)
    requires
        total_order::<K>(),
        ascending(l.push(e) + r),
        key_gt(k, e.0),
    ensures
        lookup(l.push(e) + r, k) == lookup(r, k),
{
    reveal(ascending);
    lemma_ascending_parts(l, e, r);
    lemma_key_lt_flip(e.0, k);
    let front = l.push(e);
    assert forall|i: int| 0 <= i < front.len() implies !key_eq(k, #[trigger] front[i].0) by {
        if i < l.len() {
            assert(front[i] == l[i]);
            lemma_key_lt_transitive(l[i].0, e.0, k);
        }
        lemma_key_lt_flip(front[i].0, k);
    }
    lemma_lookup_none(front, k);
    lemma_lookup_concat(front, r, k);
}

/// A filter keeps a sequence whose elements all pass.
pub proof fn lemma_filter_keeps_all<A>(s: Seq<A>, p: spec_fn(A) -> bool)
    requires
        forall|i: int| 0 <= i < s.len() ==> p(#[trigger] s[i]),
    ensures
        s.filter(p) == s,
    decreases s.len(),
{
    reveal(Seq::filter);
    if s.len() > 0 {
        let t = s.drop_last();
        assert forall|i: int| 0 <= i < t.len() implies p(#[trigger] t[i]) by {
            assert(t[i] == s[i]);
        }
        lemma_filter_keeps_all(t, p);
        assert(p(s[s.len() - 1]));
        assert(t.push(s.last()) =~= s);
    }
}

/// A filter empties a sequence none of whose elements pass.
pub proof fn lemma_filter_drops_all<A>(s: Seq<A>, p: spec_fn(A) -> bool)
    requires
        forall|i: int| 0 <= i < s.len() ==> !p(#[trigger] s[i]),
    ensures
        s.filter(p) == Seq::<A>::empty(),
    decreases s.len(),
{
    reveal(Seq::filter);
    if s.len() > 0 {
        let t = s.drop_last();
        assert forall|i: int| 0 <= i < t.len() implies !p(#[trigger] t[i]) by {
            assert(t[i] == s[i]);
        }
        lemma_filter_drops_all(t, p);
        assert(!p(s[s.len() - 1]));
    } else {
        assert(s =~= Seq::<A>::empty());
    }
}

/// What a filter keeps of an ascending sequence is ascending, passes the
/// filter and comes from the sequence.
pub proof fn lemma_filter_ascending<K: Ord, V>(s: Seq<(K, V)>, p: spec_fn((K, V)) -> bool)
    requires
        ascending(s),
    ensures
        ascending(s.filter(p)),
        forall|i: int|
            0 <= i < s.filter(p).len() ==> p(#[trigger] s.filter(p)[i]) && s.contains(
                s.filter(p)[i],
            ),
    decreases s.len(),
{
    reveal(ascending);
    reveal(Seq::filter);
    if s.len() > 0 {
        let t = s.drop_last();
        let f = t.filter(p);
        assert forall|i: int, j: int| 0 <= i < j < t.len() implies key_lt(
            #[trigger] t[i].0,
            #[trigger] t[j].0,
        ) by {
            assert(t[i] == s[i] && t[j] == s[j]);
        }
        lemma_filter_ascending(t, p);
        assert forall|i: int| 0 <= i < f.len() implies s.contains(#[trigger] f[i]) && key_lt(
            f[i].0,
            s.last().0,
        ) by {
            assert(t.contains(f[i]));
            let j = choose|j: int| 0 <= j < t.len() && t[j] == f[i];
            assert(s[j] == f[i]);
            assert(s[s.len() - 1] == s.last());
        }
        assert(s.contains(s.last())) by {
            assert(s[s.len() - 1] == s.last());
        }
    }
}

/// Where every key of `a` sorts before every key of `b`, and both are
/// ascending, `a + b` is ascending.
pub proof fn lemma_ascending_concat<K: Ord, V>(a: Seq<(K, V)>, b: Seq<(K, V)>)
    requires
        ascending(a),
        ascending(b),
        forall|i: int, j: int|
            0 <= i < a.len() && 0 <= j < b.len() ==> key_lt(#[trigger] a[i].0, #[trigger] b[j].0),
    ensures
        ascending(a + b),
{
    reveal(ascending);
    let s = a + b;
    let n = a.len() as int;
    assert forall|i: int, j: int| 0 <= i < j < s.len() implies key_lt(
        #[trigger] s[i].0,
        #[trigger] s[j].0,
    ) by {
        if j < n {
            assert(s[i] == a[i] && s[j] == a[j]);
        } else if i < n {
            assert(s[i] == a[i] && s[j] == b[j - n]);
        } else {
            assert(s[i] == b[i - n] && s[j] == b[j - n]);
        }
    }
}

/// Binding a key in an ascending sequence leaves it ascending.
pub proof fn lemma_with_entry_ascending<K: Ord, V>(s: Seq<(K, V)>, k: K, v: V)
    requires
        total_order::<K>(),
        ascending(s),
    ensures
        ascending(with_entry(s, k, v)),
{
    reveal(with_entry);
    reveal(ascending);
    let a = s.filter(sorts_before(k));
    let b = s.filter(sorts_after(k));
    lemma_filter_ascending(s, sorts_before(k));
    lemma_filter_ascending(s, sorts_after(k));
    assert forall|i: int| 0 <= i < a.len() implies key_lt(#[trigger] a[i].0, k) by {
        assert(sorts_before::<K, V>(k)(a[i]));
    }
    assert forall|i: int| 0 <= i < b.len() implies key_lt(k, #[trigger] b[i].0) by {
        assert(sorts_after::<K, V>(k)(b[i]));
    }
    lemma_ascending_join(a, (k, v), b);
}

/// Removing a key from an ascending sequence leaves it ascending.
pub proof fn lemma_without_key_ascending<K: Ord, V>(s: Seq<(K, V)>, k: K)
    requires
        total_order::<K>(),
        ascending(s),
    ensures
        ascending(without_key(s, k)),
{
    reveal(without_key);
    reveal(ascending);
    let a = s.filter(sorts_before(k));
    let b = s.filter(sorts_after(k));
    lemma_filter_ascending(s, sorts_before(k));
    lemma_filter_ascending(s, sorts_after(k));
    assert forall|i: int, j: int| 0 <= i < a.len() && 0 <= j < b.len() implies key_lt(
        #[trigger] a[i].0,
        #[trigger] b[j].0,
    ) by {
        assert(sorts_before::<K, V>(k)(a[i]));
        assert(sorts_after::<K, V>(k)(b[j]));
        lemma_key_lt_transitive(a[i].0, k, b[j].0);
    }
    lemma_ascending_concat(a, b);
}

/// How the two filters around `k` split an ascending sequence `l, e, r`
/// when `k` sorts before `e`: `e` and `r` sort after `k`.
proof fn lemma_split_left<K: Ord, V>(l: Seq<(K, V)>, e: (K, V), r: Seq<(K, V)>, k: K)
    requires
        total_order::<K>(),
        ascending(l.push(e) + r),
        key_lt(k, e.0),
    ensures
        (l.push(e) + r).filter(sorts_before(k)) == l.filter(sorts_before(k)),
        (l.push(e) + r).filter(sorts_after(k)) == l.filter(sorts_after(k)).push(e) + r,
{
    reveal(ascending);
    lemma_ascending_parts(l, e, r);
    let before = sorts_before::<K, V>(k);
    let after = sorts_after::<K, V>(k);
    Seq::filter_distributes_over_add(l.push(e), r, before);
    Seq::filter_distributes_over_add(l.push(e), r, after);
    l.lemma_filter_push(e, before);
    l.lemma_filter_push(e, after);
    lemma_key_lt_flip(k, e.0);
    lemma_key_lt_flip(e.0, k);
    assert(!before(e));
    assert(after(e));
    assert forall|i: int| 0 <= i < r.len() implies after(#[trigger] r[i]) && !before(r[i]) by {
        lemma_key_lt_transitive(k, e.0, r[i].0);
        lemma_key_lt_flip(k, r[i].0);
        lemma_key_lt_flip(r[i].0, k);
    }
    lemma_filter_keeps_all(r, after);
    lemma_filter_drops_all(r, before);
    assert(l.filter(before) + Seq::<(K, V)>::empty() =~= l.filter(before));
}

/// How the two filters around `k` split an ascending sequence `l, e, r`
/// when `k` sorts after `e`: `l` and `e` sort before `k`.
proof fn lemma_split_right<K: Ord, V>(l: Seq<(K, V)>, e: (K, V), r: Seq<(K, V)>, k: K)
    requires
        total_order::<K>(),
        ascending(l.push(e) + r),
        key_lt(e.0, k),
    ensures
        (l.push(e) + r).filter(sorts_before(k)) == l.push(e) + r.filter(sorts_before(k)),
        (l.push(e) + r).filter(sorts_after(k)) == r.filter(sorts_after(k)),
{
    reveal(ascending);
    lemma_ascending_parts(l, e, r);
    let before = sorts_before::<K, V>(k);
    let after = sorts_after::<K, V>(k);
    Seq::filter_distributes_over_add(l.push(e), r, before);
    Seq::filter_distributes_over_add(l.push(e), r, after);
    lemma_key_lt_flip(k, e.0);
    lemma_key_lt_flip(e.0, k);
    let le = l.push(e);
    assert forall|i: int| 0 <= i < le.len() implies before(#[trigger] le[i]) && !after(le[i]) by {
        if i < l.len() {
            assert(le[i] == l[i]);
            lemma_key_lt_transitive(l[i].0, e.0, k);
        }
        lemma_key_lt_flip(k, le[i].0);
        lemma_key_lt_flip(le[i].0, k);
    }
    lemma_filter_keeps_all(le, before);
    lemma_filter_drops_all(le, after);
    assert(Seq::<(K, V)>::empty() + r.filter(after) =~= r.filter(after));
}

/// How the two filters around `k` split an ascending sequence `l, e, r`
/// when `k` compares equal to the key of `e`: `l` sorts before `k`, `r`
/// after it, and `e` is dropped by both.
proof fn lemma_split_here<K: Ord, V>(l: Seq<(K, V)>, e: (K, V), r: Seq<(K, V)>, k: K)
    requires
        total_order::<K>(),
        ascending(l.push(e) + r),
        key_eq(k, e.0),
    ensures
        (l.push(e) + r).filter(sorts_before(k)) == l,
        (l.push(e) + r).filter(sorts_after(k)) == r,
{
    reveal(ascending);
    lemma_ascending_parts(l, e, r);
    let before = sorts_before::<K, V>(k);
    let after = sorts_after::<K, V>(k);
    Seq::filter_distributes_over_add(l.push(e), r, before);
    Seq::filter_distributes_over_add(l.push(e), r, after);
    l.lemma_filter_push(e, before);
    l.lemma_filter_push(e, after);
    lemma_key_eq_symmetric(k, e.0);
    lemma_key_lt_flip(k, e.0);
    lemma_key_lt_flip(e.0, k);
    assert(!before(e));
    assert(!after(e));
    assert forall|i: int| 0 <= i < l.len() implies before(#[trigger] l[i]) && !after(l[i]) by {
        lemma_key_lt_eq(l[i].0, e.0, k);
        lemma_key_lt_flip(k, l[i].0);
        lemma_key_lt_flip(l[i].0, k);
    }
    assert forall|i: int| 0 <= i < r.len() implies after(#[trigger] r[i]) && !before(r[i]) by {
        lemma_key_eq_lt(k, e.0, r[i].0);
        lemma_key_lt_flip(k, r[i].0);
        lemma_key_lt_flip(r[i].0, k);
    }
    lemma_filter_keeps_all(l, before);
    lemma_filter_drops_all(l, after);
    lemma_filter_keeps_all(r, after);
    lemma_filter_drops_all(r, before);
    assert(l + Seq::<(K, V)>::empty() =~= l);
    assert(Seq::<(K, V)>::empty() + r =~= r);
}

/// Binding a key that sorts before `e` changes the left of `e` only.
pub proof fn lemma_with_entry_left<K: Ord, V>(
    l: Seq<(K, V)>,
    e: (K, V),
    r: Seq<(K, V)>,
    k: K,
    v: V,
)
    requires
        total_order::<K>(),
        ascending(l.push(e) + r),
        key_lt(k, e.0),
    ensures
        with_entry(l.push(e) + r, k, v) == with_entry(l, k, v).push(e) + r,
{
    reveal(with_entry);
    reveal(ascending);
    lemma_split_left(l, e, r, k);
    let a = l.filter(sorts_before(k)).push((k, v));
    let b = l.filter(sorts_after(k));
    assert(a + (b.push(e) + r) =~= (a + b).push(e) + r);
}

/// Binding a key that compares equal to the key of `e` replaces `e`.
pub proof fn lemma_with_entry_here<K: Ord, V>(
    l: Seq<(K, V)>,
    e: (K, V),
    r: Seq<(K, V)>,
    k: K,
    v: V,
)
    requires
        total_order::<K>(),
        ascending(l.push(e) + r),
        key_eq(k, e.0),
    ensures
        with_entry(l.push(e) + r, k, v) == l.push((k, v)) + r,
{
    reveal(with_entry);
    reveal(ascending);
    lemma_split_here(l, e, r, k);
}

/// Binding a key that sorts after `e` changes the right of `e` only.
pub proof fn lemma_with_entry_right<K: Ord, V>(
    l: Seq<(K, V)>,
    e: (K, V),
    r: Seq<(K, V)>,
    k: K,
    v: V,
)
    requires
        total_order::<K>(),
        ascending(l.push(e) + r),
        key_gt(k, e.0),
    ensures
        with_entry(l.push(e) + r, k, v) == l.push(e) + with_entry(r, k, v),
{
    reveal(with_entry);
    reveal(ascending);
    lemma_key_lt_flip(e.0, k);
    lemma_split_right(l, e, r, k);
    let a = r.filter(sorts_before(k));
    let b = r.filter(sorts_after(k));
    assert((l.push(e) + a).push((k, v)) + b =~= l.push(e) + (a.push((k, v)) + b));
}

/// Removing a key that sorts before `e` changes the left of `e` only.
pub proof fn lemma_without_key_left<K: Ord, V>(l: Seq<(K, V)>, e: (K, V), r: Seq<(K, V)>, k: K)
    requires
        total_order::<K>(),
        ascending(l.push(e) + r),
        key_lt(k, e.0),
    ensures
        without_key(l.push(e) + r, k) == without_key(l, k).push(e) + r,
{
    reveal(without_key);
    reveal(ascending);
    lemma_split_left(l, e, r, k);
    let a = l.filter(sorts_before(k));
    let b = l.filter(sorts_after(k));
    assert(a + (b.push(e) + r) =~= (a + b).push(e) + r);
}

/// Removing a key that compares equal to the key of `e` removes `e`.
pub proof fn lemma_without_key_here<K: Ord, V>(l: Seq<(K, V)>, e: (K, V), r: Seq<(K, V)>, k: K)
    requires
        total_order::<K>(),
        ascending(l.push(e) + r),
        key_eq(k, e.0),
    ensures
        without_key(l.push(e) + r, k) == l + r,
{
    reveal(without_key);
    reveal(ascending);
    lemma_split_here(l, e, r, k);
}

/// Removing a key that sorts after `e` changes the right of `e` only.
pub proof fn lemma_without_key_right<K: Ord, V>(l: Seq<(K, V)>, e: (K, V), r: Seq<(K, V)>, k: K)
    requires
        total_order::<K>(),
        ascending(l.push(e) + r),
        key_gt(k, e.0),
    ensures
        without_key(l.push(e) + r, k) == l.push(e) + without_key(r, k),
{
    reveal(without_key);
    reveal(ascending);
    lemma_key_lt_flip(e.0, k);
    lemma_split_right(l, e, r, k);
    let a = r.filter(sorts_before(k));
    let b = r.filter(sorts_after(k));
    assert((l.push(e) + a) + b =~= l.push(e) + (a + b));
}

/// Binding a key in the sequence without entries gives the one entry.
pub proof fn lemma_with_entry_empty<K: Ord, V>(k: K, v: V)
    ensures
        with_entry(Seq::<(K, V)>::empty(), k, v) == Seq::<(K, V)>::empty().push((k, v))
            + Seq::<(K, V)>::empty(),
{
    reveal(with_entry);
    let none = Seq::<(K, V)>::empty();
    lemma_filter_drops_all(none, sorts_before(k));
    lemma_filter_drops_all(none, sorts_after(k));
}

/// Removing a key from the sequence without entries changes nothing.
pub proof fn lemma_without_key_empty<K: Ord, V>(k: K)
    ensures
        without_key(Seq::<(K, V)>::empty(), k) == Seq::<(K, V)>::empty(),
{
    reveal(without_key);
    let none = Seq::<(K, V)>::empty();
    lemma_filter_drops_all(none, sorts_before(k));
    lemma_filter_drops_all(none, sorts_after(k));
    assert(none + none =~= none);
}

/// Removing the key of `e`, where one side of `e` is empty, leaves the
/// other side.
pub proof fn lemma_without_key_one_side<K: Ord, V>(
    l: Seq<(K, V)>,
    e: (K, V),
    r: Seq<(K, V)>,
    k: K,
)
    requires
        total_order::<K>(),
        ascending(l.push(e) + r),
        key_eq(k, e.0),
    ensures
        l.len() == 0 ==> without_key(l.push(e) + r, k) == r,
        r.len() == 0 ==> without_key(l.push(e) + r, k) == l,
{
    reveal(without_key);
    lemma_without_key_here(l, e, r, k);
}

/// Removing the key of `e`, where `e` has entries on its left, is the same
/// as putting the last entry of the left side in the place of `e`, and
/// removing that entry from the left side takes its last entry away.
pub proof fn lemma_without_key_predecessor<K: Ord, V>(
    l: Seq<(K, V)>,
    e: (K, V),
    r: Seq<(K, V)>,
    k: K,
)
    requires
        total_order::<K>(),
        ascending(l.push(e) + r),
        key_eq(k, e.0),
        l.len() > 0,
    ensures
        without_key(l, l.last().0) == l.drop_last(),
        without_key(l.push(e) + r, k) == l.drop_last().push(l.last()) + r,
{
    reveal(without_key);
    lemma_without_key_here(l, e, r, k);
    lemma_ascending_parts(l, e, r);
    let rest = l.drop_last();
    let last = l.last();
    let none = Seq::<(K, V)>::empty();
    assert(rest.push(last) =~= l);
    assert(rest.push(last) + none =~= l);
    lemma_key_eq_reflexive(last.0);
    lemma_without_key_here(rest, last, none, last.0);
    assert(rest + none =~= rest);
}

/// What a filter keeps passes the filter and comes from the sequence.
pub proof fn lemma_filter_members<A>(s: Seq<A>, p: spec_fn(A) -> bool)
    ensures
        forall|i: int|
            0 <= i < s.filter(p).len() ==> p(#[trigger] s.filter(p)[i]) && s.contains(
                s.filter(p)[i],
            ),
{
    let f = s.filter(p);
    assert forall|i: int| 0 <= i < f.len() implies p(#[trigger] f[i]) && s.contains(f[i]) by {
        s.lemma_filter_pred(p, i);
        assert(f.contains(f[i]));
        s.lemma_filter_contains_rev(p, f[i]);
    }
}

/// A filter that keeps every entry whose key compares equal to `k` does not
/// change what a lookup of `k` finds.
pub proof fn lemma_lookup_filter_kept<K: Ord, V>(
    s: Seq<(K, V)>,
    p: spec_fn((K, V)) -> bool,
    k: K,
)
    requires
        forall|e: (K, V)| key_eq(k, e.0) ==> #[trigger] p(e),
    ensures
        lookup(s.filter(p), k) == lookup(s, k),
    decreases s.len(),
{
    reveal(Seq::filter);
    if s.len() == 0 {
    } else {
        let t = s.drop_last();
        let x = s.last();
        let one = Seq::<(K, V)>::empty().push(x);
        assert(s =~= t + one);
        lemma_lookup_filter_kept(t, p, k);
        lemma_lookup_concat(t, one, k);
        if p(x) {
            assert(t.filter(p).push(x) =~= t.filter(p) + one);
            lemma_lookup_concat(t.filter(p), one, k);
        } else {
            assert(s[s.len() - 1] == x);
            assert(!key_eq(k, one[0].0));
            lemma_lookup_none(one, k);
        }
    }
}

/// A filter that drops every entry whose key compares equal to `k` leaves
/// nothing for a lookup of `k` to find.
pub proof fn lemma_lookup_filter_dropped<K: Ord, V>(
    s: Seq<(K, V)>,
    p: spec_fn((K, V)) -> bool,
    k: K,
)
    requires
        forall|e: (K, V)| key_eq(k, e.0) ==> !#[trigger] p(e),
    ensures
        lookup(s.filter(p), k) is None,
{
    lemma_filter_members(s, p);
    lemma_lookup_none(s.filter(p), k);
}

/// A lookup of `k` after `k` was bound to `v` finds `v`.
pub proof fn lemma_lookup_with_entry_same<K: Ord, V>(s: Seq<(K, V)>, k: K, v: V)
    requires
        total_order::<K>(),
    ensures
        lookup(with_entry(s, k, v), k) == Some(v),
{
    reveal(with_entry);
    let before = sorts_before::<K, V>(k);
    let b = s.filter(before);
    let a = s.filter(sorts_after(k));
    let one = Seq::<(K, V)>::empty().push((k, v));
    lemma_key_eq_reflexive(k);
    assert forall|e: (K, V)| key_eq(k, e.0) implies !#[trigger] before(e) by {
        lemma_key_lt_flip(e.0, k);
    }
    lemma_lookup_filter_dropped(s, before, k);
    assert(b.push((k, v)) + a =~= b + (one + a));
    lemma_lookup_concat(b, one + a, k);
    assert((one + a)[0] == (k, v));
}

/// A lookup of a key that does not compare equal to `k` finds the same
/// after `k` was bound as before.
pub proof fn lemma_lookup_with_entry_other<K: Ord, V>(s: Seq<(K, V)>, k: K, v: V, other: K)
    requires
        total_order::<K>(),
        !key_eq(other, k),
    ensures
        lookup(with_entry(s, k, v), other) == lookup(s, other),
{
    reveal(with_entry);
    let one = Seq::<(K, V)>::empty().push((k, v));
    assert(s.filter(sorts_before(k)).push((k, v)) + s.filter(sorts_after(k)) =~= s.filter(
        sorts_before(k),
    ) + (one + s.filter(sorts_after(k))));
    assert(!key_eq(other, one[0].0));
    lemma_lookup_none(one, other);
    lemma_lookup_concat(one, s.filter(sorts_after(k)), other);
    lemma_lookup_around(s, k, other);
    lemma_lookup_concat(s.filter(sorts_before(k)), one + s.filter(sorts_after(k)), other);
}

/// A key that does not compare equal to `k` is found on one side of `k`:
/// among the entries before `k` or among those after it, as it is found in
/// the whole sequence, and not on the other side.
proof fn lemma_lookup_around<K: Ord, V>(s: Seq<(K, V)>, k: K, other: K)
    requires
        total_order::<K>(),
        !key_eq(other, k),
    ensures
        key_lt(other, k) ==> lookup(s.filter(sorts_before(k)), other) == lookup(s, other)
            && lookup(s.filter(sorts_after(k)), other) is None,
        key_gt(other, k) ==> lookup(s.filter(sorts_after(k)), other) == lookup(s, other)
            && lookup(s.filter(sorts_before(k)), other) is None,
        key_lt(other, k) || key_gt(other, k),
{
    let before = sorts_before::<K, V>(k);
    let after = sorts_after::<K, V>(k);
    if key_lt(other, k) {
        assert forall|e: (K, V)| key_eq(other, e.0) implies #[trigger] before(e) by {
            lemma_key_eq_symmetric(other, e.0);
            lemma_key_eq_lt(e.0, other, k);
        }
        assert forall|e: (K, V)| key_eq(other, e.0) implies !#[trigger] after(e) by {
            lemma_key_eq_symmetric(other, e.0);
            lemma_key_eq_lt(e.0, other, k);
            lemma_key_lt_flip(e.0, k);
            lemma_key_lt_flip(k, e.0);
        }
        lemma_lookup_filter_kept(s, before, other);
        lemma_lookup_filter_dropped(s, after, other);
    } else {
        lemma_key_lt_flip(k, other);
        assert(key_gt(other, k));
        assert forall|e: (K, V)| key_eq(other, e.0) implies #[trigger] after(e) by {
            lemma_key_lt_eq(k, other, e.0);
        }
        assert forall|e: (K, V)| key_eq(other, e.0) implies !#[trigger] before(e) by {
            lemma_key_lt_eq(k, other, e.0);
            lemma_key_lt_flip(e.0, k);
            lemma_key_lt_flip(k, e.0);
        }
        lemma_lookup_filter_kept(s, after, other);
        lemma_lookup_filter_dropped(s, before, other);
    }
}

/// A lookup of `k` after `k` was removed finds nothing.
pub proof fn lemma_lookup_without_key_same<K: Ord, V>(s: Seq<(K, V)>, k: K)
    requires
        total_order::<K>(),
    ensures
        lookup(without_key(s, k), k) is None,
{
    reveal(without_key);
    let before = sorts_before::<K, V>(k);
    let after = sorts_after::<K, V>(k);
    assert forall|e: (K, V)| key_eq(k, e.0) implies !#[trigger] before(e) by {
        lemma_key_lt_flip(e.0, k);
    }
    assert forall|e: (K, V)| key_eq(k, e.0) implies !#[trigger] after(e) by {
    }
    lemma_lookup_filter_dropped(s, before, k);
    lemma_lookup_filter_dropped(s, after, k);
    lemma_lookup_concat(s.filter(before), s.filter(after), k);
}

/// A lookup of a key that does not compare equal to `k` finds the same
/// after `k` was removed as before.
pub proof fn lemma_lookup_without_key_other<K: Ord, V>(s: Seq<(K, V)>, k: K, other: K)
    requires
        total_order::<K>(),
        !key_eq(other, k),
    ensures
        lookup(without_key(s, k), other) == lookup(s, other),
{
    reveal(without_key);
    lemma_lookup_around(s, k, other);
    lemma_lookup_concat(s.filter(sorts_before(k)), s.filter(sorts_after(k)), other);
}

} // verus!
