use vstd::prelude::*;

verus! {

/// The position of the first element of `s` that passes `pred`; the length
/// of `s` where none does.
pub open spec fn first_index<A>(s: Seq<A>, pred: spec_fn(A) -> bool) -> int
    decreases s.len(),
{
    if s.len() == 0 {
        0
    } else if pred(s[0]) {
        0
    } else {
        1 + first_index(s.drop_first(), pred)
    }
}

/// `i` is a position in `s` or its length, no element before `i` passes
/// `pred`, and the one at `i`, if there is one, does.
pub open spec fn is_first_index<A>(s: Seq<A>, pred: spec_fn(A) -> bool, i: int) -> bool {
    &&& 0 <= i <= s.len()
    &&& forall|j: int| 0 <= j < i ==> !pred(#[trigger] s[j])
    &&& i < s.len() ==> pred(s[i])
}

/// `first_index` is the first index.
pub proof fn lemma_first_index<A>(s: Seq<A>, pred: spec_fn(A) -> bool)
    ensures
        is_first_index(s, pred, first_index(s, pred)),
    decreases s.len(),
{
    if s.len() > 0 && !pred(s[0]) {
        let t = s.drop_first();
        lemma_first_index(t, pred);
        let i = first_index(t, pred);
        assert forall|j: int| 0 <= j < i + 1 implies !pred(#[trigger] s[j]) by {
            if j > 0 {
                assert(t[j - 1] == s[j]);
            }
        }
        if i < t.len() {
            assert(t[i] == s[i + 1]);
        }
    }
}

/// There is one first index only.
pub proof fn lemma_first_index_unique<A>(s: Seq<A>, pred: spec_fn(A) -> bool, i: int)
    requires
        is_first_index(s, pred, i),
    ensures
        i == first_index(s, pred),
{
    lemma_first_index(s, pred);
    let f = first_index(s, pred);
    if f < i {
        assert(!pred(s[f]));
    } else if i < f {
        assert(!pred(s[i]));
    }
}

/// The first index is the length exactly where no element passes.
pub proof fn lemma_first_index_none<A>(s: Seq<A>, pred: spec_fn(A) -> bool)
    ensures
        first_index(s, pred) == s.len() <==> forall|j: int|
            0 <= j < s.len() ==> !pred(#[trigger] s[j]),
{
    lemma_first_index(s, pred);
    if forall|j: int| 0 <= j < s.len() ==> !pred(#[trigger] s[j]) {
        lemma_first_index_unique(s, pred, s.len() as int);
    }
}

/// Mapping the elements keeps the first index, where the predicate on the
/// images says what `pred` says on the elements.
pub proof fn lemma_first_index_mapped<A, B>(
    s: Seq<A>,
    f: spec_fn(A) -> B,
    pred: spec_fn(A) -> bool,
    image_pred: spec_fn(B) -> bool,
)
    requires
        forall|j: int| 0 <= j < s.len() ==> image_pred(f(#[trigger] s[j])) == pred(s[j]),
    ensures
        first_index(s.map_values(f), image_pred) == first_index(s, pred),
{
    let i = first_index(s, pred);
    lemma_first_index(s, pred);
    let t = s.map_values(f);
    assert forall|j: int| 0 <= j < i implies !image_pred(#[trigger] t[j]) by {
        assert(!pred(s[j]));
    }
    lemma_first_index_unique(t, image_pred, i);
}

/// An element added at the end is the first to pass where it passes and
/// none before it did; otherwise the first index stays.
pub proof fn lemma_first_index_push<A>(s: Seq<A>, x: A, pred: spec_fn(A) -> bool)
    ensures
        first_index(s.push(x), pred) == if first_index(s, pred) < s.len() || pred(x) {
            first_index(s, pred)
        } else {
            s.push(x).len() as int
        },
{
    let i = first_index(s, pred);
    let t = s.push(x);
    lemma_first_index(s, pred);
    assert forall|j: int| 0 <= j < i implies !pred(#[trigger] t[j]) by {
        assert(t[j] == s[j]);
    }
    if i < s.len() {
        assert(t[i] == s[i]);
        lemma_first_index_unique(t, pred, i);
    } else if pred(x) {
        assert(t[i] == x);
        lemma_first_index_unique(t, pred, i);
    } else {
        assert(t[i] == x);
        lemma_first_index_unique(t, pred, i + 1);
    }
}

/// Taking away an element that does not pass keeps the element that is
/// first to pass, one place nearer where it stood behind the one taken.
pub proof fn lemma_first_index_remove<A>(s: Seq<A>, pred: spec_fn(A) -> bool, i: int)
    requires
        0 <= i < s.len(),
        !pred(s[i]),
    ensures
        first_index(s.remove(i), pred) == if first_index(s, pred) < i {
            first_index(s, pred)
        } else {
            first_index(s, pred) - 1
        },
        first_index(s, pred) != i,
        first_index(s, pred) < s.len() ==> s.remove(i)[first_index(s.remove(i), pred)]
            == s[first_index(s, pred)],
{
    let f = first_index(s, pred);
    let t = s.remove(i);
    lemma_first_index(s, pred);
    if f < i {
        assert forall|j: int| 0 <= j < f implies !pred(#[trigger] t[j]) by {
            assert(t[j] == s[j]);
        }
        assert(t[f] == s[f]);
        lemma_first_index_unique(t, pred, f);
    } else {
        assert forall|j: int| 0 <= j < f - 1 implies !pred(#[trigger] t[j]) by {
            if j < i {
                assert(t[j] == s[j]);
            } else {
                assert(t[j] == s[j + 1]);
            }
        }
        if f < s.len() {
            assert(t[f - 1] == s[f]);
        }
        lemma_first_index_unique(t, pred, f - 1);
    }
}

} // verus!
