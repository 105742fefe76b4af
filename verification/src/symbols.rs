use vstd::prelude::*;
use vstd::std_specs::cmp::PartialEqSpec;

verus! {

/// `a == b`, as the symbols' own equality has it.
pub open spec fn same_symbol<T: PartialEq>(a: T, b: T) -> bool {
    a.eq_spec(&b)
}

/// Holds of the values that equal `target`, as the values' own equality has
/// it.
pub open spec fn equal_to<U: PartialEq>(target: U) -> spec_fn(U) -> bool {
    |v: U| v.eq_spec(&target)
}

/// The equality of `T` is an equivalence relation that the executable `==`
/// computes.
#[verifier::opaque]
pub open spec fn equivalence<T: PartialEq>() -> bool {
    &&& T::obeys_eq_spec()
    &&& forall|a: T| same_symbol(a, a)
    &&& forall|a: T, b: T| same_symbol(a, b) ==> same_symbol(b, a)
    &&& forall|a: T, b: T, c: T| same_symbol(a, b) && same_symbol(b, c) ==> same_symbol(a, c)
}

/// A clone of a `T` equals what it was made from.
#[verifier::opaque]
pub open spec fn faithful_clone<T: PartialEq + Clone>() -> bool {
    forall|a: T, b: T| cloned(a, b) ==> same_symbol(a, b)
}

/// What a trie asks of its alphabet: an equality that is an equivalence
/// relation, and clones that equal what they were made from.
pub open spec fn sound_symbols<T: PartialEq + Clone>() -> bool {
    equivalence::<T>() && faithful_clone::<T>()
}

/// Two paths of the same length whose symbols are equal, place by place.
pub open spec fn same_path<T: PartialEq>(p: Seq<T>, q: Seq<T>) -> bool {
    &&& p.len() == q.len()
    &&& forall|i: int| 0 <= i < p.len() ==> same_symbol(#[trigger] p[i], q[i])
}

/// Under an equivalence the executable `==` returns what `eq_spec` says.
pub proof fn lemma_equality_is_specified<T: PartialEq>()
    requires
        equivalence::<T>(),
    ensures
        T::obeys_eq_spec(),
{
    reveal(equivalence);
}

/// Every symbol equals itself.
pub proof fn lemma_same_symbol_reflexive<T: PartialEq>(a: T)
    requires
        equivalence::<T>(),
    ensures
        same_symbol(a, a),
{
    reveal(equivalence);
}

/// Equality of symbols does not depend on the side.
pub proof fn lemma_same_symbol_symmetric<T: PartialEq>(a: T, b: T)
    requires
        equivalence::<T>(),
    ensures
        same_symbol(a, b) == same_symbol(b, a),
{
    reveal(equivalence);
}

/// Two symbols equal to a third are equal.
pub proof fn lemma_same_symbol_transitive<T: PartialEq>(a: T, b: T, c: T)
    requires
        equivalence::<T>(),
        same_symbol(a, b),
        same_symbol(b, c),
    ensures
        same_symbol(a, c),
{
    reveal(equivalence);
}

/// Two equal symbols are equal to the same symbols.
pub proof fn lemma_same_symbol_class<T: PartialEq>(a: T, b: T, c: T)
    requires
        equivalence::<T>(),
        same_symbol(a, b),
    ensures
        same_symbol(a, c) == same_symbol(b, c),
{
    reveal(equivalence);
}

/// A clone equals what it was made from.
pub proof fn lemma_clone_is_same_symbol<T: PartialEq + Clone>(a: T, b: T)
    requires
        faithful_clone::<T>(),
        cloned(a, b),
    ensures
        same_symbol(a, b),
{
    reveal(faithful_clone);
}

/// A path is equal, symbol by symbol, to every path that begins with an
/// equal symbol and goes on as the rest of it does.
pub proof fn lemma_same_path_from_rest<T: PartialEq>(path: Seq<T>)
    requires
        path.len() > 0,
    ensures
        forall|other: Seq<T>|
            other.len() > 0 && same_symbol(other[0], path[0]) && #[trigger] same_path(
                other.drop_first(),
                path.drop_first(),
            ) ==> same_path(other, path),
{
    assert forall|other: Seq<T>|
        other.len() > 0 && same_symbol(other[0], path[0]) && #[trigger] same_path(
            other.drop_first(),
            path.drop_first(),
        ) implies same_path(other, path) by {
        assert forall|i: int| 0 <= i < other.len() implies same_symbol(
            #[trigger] other[i],
            path[i],
        ) by {
            if i > 0 {
                assert(other.drop_first()[i - 1] == other[i]);
                assert(path.drop_first()[i - 1] == path[i]);
            }
        }
    }
}

} // verus!
