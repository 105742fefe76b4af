use crate::scan::{
    first_index, is_first_index, lemma_first_index, lemma_first_index_none,
    lemma_first_index_unique,
};
use crate::symbols::{
    equivalence, lemma_clone_is_same_symbol, lemma_equality_is_specified,
    equal_to, lemma_same_path_from_rest, lemma_same_symbol_class, lemma_same_symbol_reflexive,
    lemma_same_symbol_symmetric, lemma_same_symbol_transitive, same_path, same_symbol,
    sound_symbols,
};
use crate::RefCounter;
use vstd::prelude::*;
use vstd::std_specs::cmp::PartialEqSpec;

verus! {

/// A persistent prefix tree: at each path of symbols a bag of stored
/// values, kept in the order in which they were inserted.
pub struct Trie<T = u8, U = bool> {
    pub(crate) stored_value: Vec<RefCounter<U>>,
    pub(crate) adjecent_nodes: Vec<(T, RefCounter<Trie<T, U>>)>,
}

/// Holds of the children whose symbol equals `sym`.
pub open spec fn leads_by<T: PartialEq, U>(sym: T) -> spec_fn((T, RefCounter<Trie<T, U>>)) -> bool {
    |c: (T, RefCounter<Trie<T, U>>)| same_symbol(c.0, sym)
}

/// The values that the references of `s` refer to.
pub open spec fn referents<U>(s: Seq<&U>) -> Seq<U> {
    s.map_values(|r: &U| *r)
}

/// `Vec::into_boxed_slice`: the boxed slice holds the elements that the
/// vector held, in the same order.
#[verifier::external_body]
fn into_boxed_slice<A>(v: Vec<A>) -> (b: Box<[A]>)
    ensures
        b@ == v@,
{
    v.into_boxed_slice()
}

/// The values that the handles of `s` give access to.
pub open spec fn pointees<U>(s: Seq<RefCounter<U>>) -> Seq<U> {
    s.map_values(|r: RefCounter<U>| *r)
}

impl<T: PartialEq, U> Trie<T, U> {
    /// The bag stored at `path`, in insertion order: the values of the node
    /// that `path` leads to, following at each node the first child whose
    /// symbol equals the next symbol of the path. Empty where the path
    /// leads nowhere.
    pub closed spec fn bag(&self, path: Seq<T>) -> Seq<U>
        decreases path.len(),
    {
        if path.len() == 0 {
            pointees(self.stored_value@)
        } else {
            let i = first_index(self.adjecent_nodes@, leads_by(path[0]));
            if i < self.adjecent_nodes@.len() {
                self.adjecent_nodes@[i].1.bag(path.drop_first())
            } else {
                Seq::empty()
            }
        }
    }

    /// No two children of this node have equal symbols.
    pub closed spec fn distinct_children(&self) -> bool {
        forall|i: int, j: int|
            0 <= i < j < self.adjecent_nodes@.len() ==> !same_symbol(
                (#[trigger] self.adjecent_nodes@[i]).0,
                (#[trigger] self.adjecent_nodes@[j]).0,
            )
    }

    /// At every node of the trie a symbol leads to one child at most.
    pub closed spec fn wf(&self) -> bool
        decreases self,
    {
        &&& self.distinct_children()
        &&& forall|i: int|
            0 <= i < self.adjecent_nodes@.len() ==> (#[trigger] self.adjecent_nodes@[i]).1.wf()
    }
}

impl<T: Clone, U> Trie<T, U> {
    /// This node has the values of `other`, by the same handles, and the
    /// children of `other`, each under a clone of its symbol.
    pub closed spec fn mirrors(self, other: Self) -> bool {
        &&& self.stored_value@ == other.stored_value@
        &&& self.adjecent_nodes@.len() == other.adjecent_nodes@.len()
        &&& forall|i: int|
            0 <= i < self.adjecent_nodes@.len() ==> {
                &&& cloned(other.adjecent_nodes@[i].0, (#[trigger] self.adjecent_nodes@[i]).0)
                &&& self.adjecent_nodes@[i].1 == other.adjecent_nodes@[i].1
            }
    }
}

impl<T: Clone, U> Clone for Trie<T, U> {
    /// A second handle on every value and every child; the symbols under
    /// which the children hang are cloned.
    fn clone(&self) -> (res: Self)
        ensures
            res.mirrors(*self),
    {
        let mut stored_value: Vec<RefCounter<U>> = Vec::new();
        let mut i: usize = 0;
        while i < self.stored_value.len()
            invariant
                i <= self.stored_value@.len(),
                stored_value@ == self.stored_value@.take(i as int),
            decreases self.stored_value@.len() - i,
        {
            stored_value.push(self.stored_value[i].clone());
            proof {
                assert(self.stored_value@.take(i + 1) =~= self.stored_value@.take(i as int).push(
                    self.stored_value@[i as int],
                ));
            }
            i += 1;
        }
        let mut adjecent_nodes: Vec<(T, RefCounter<Trie<T, U>>)> = Vec::new();
        let mut j: usize = 0;
        while j < self.adjecent_nodes.len()
            invariant
                j <= self.adjecent_nodes@.len(),
                adjecent_nodes@.len() == j,
                forall|n: int|
                    0 <= n < j ==> {
                        &&& cloned(self.adjecent_nodes@[n].0, (#[trigger] adjecent_nodes@[n]).0)
                        &&& adjecent_nodes@[n].1 == self.adjecent_nodes@[n].1
                    },
            decreases self.adjecent_nodes@.len() - j,
        {
            let symbol = self.adjecent_nodes[j].0.clone();
            let child = self.adjecent_nodes[j].1.clone();
            adjecent_nodes.push((symbol, child));
            j += 1;
        }
        proof {
            assert(self.stored_value@.take(i as int) =~= self.stored_value@);
        }
        Trie { stored_value, adjecent_nodes }
    }
}

/// Children that differ in their symbols only, and by equal symbols, lead
/// the same way.
proof fn lemma_same_lead<T: PartialEq, U>(
    a: Seq<(T, RefCounter<Trie<T, U>>)>,
    b: Seq<(T, RefCounter<Trie<T, U>>)>,
    sym: T,
)
    requires
        equivalence::<T>(),
        a.len() == b.len(),
        forall|i: int| 0 <= i < a.len() ==> same_symbol((#[trigger] a[i]).0, b[i].0),
    ensures
        first_index(b, leads_by(sym)) == first_index(a, leads_by(sym)),
{
    let i = first_index(a, leads_by(sym));
    lemma_first_index(a, leads_by(sym));
    assert forall|j: int| 0 <= j < b.len() implies leads_by::<T, U>(sym)(#[trigger] b[j])
        == leads_by::<T, U>(sym)(a[j]) by {
        assert(same_symbol(a[j].0, b[j].0));
        lemma_same_symbol_class(a[j].0, b[j].0, sym);
    }
    assert(is_first_index(b, leads_by(sym), i)) by {
        assert forall|j: int| 0 <= j < i implies !leads_by::<T, U>(sym)(#[trigger] b[j]) by {
            assert(!leads_by::<T, U>(sym)(a[j]));
        }
    }
    lemma_first_index_unique(b, leads_by(sym), i);
}

/// Two equal symbols lead the same way.
proof fn lemma_equal_symbols_lead_alike<T: PartialEq, U>(
    c: Seq<(T, RefCounter<Trie<T, U>>)>,
    p: T,
    q: T,
)
    requires
        equivalence::<T>(),
        same_symbol(p, q),
    ensures
        first_index(c, leads_by(q)) == first_index(c, leads_by(p)),
{
    let i = first_index(c, leads_by(p));
    lemma_first_index(c, leads_by(p));
    assert forall|j: int| 0 <= j < c.len() implies leads_by::<T, U>(q)(#[trigger] c[j])
        == leads_by::<T, U>(p)(c[j]) by {
        lemma_same_symbol_class(p, q, c[j].0);
        lemma_same_symbol_symmetric(c[j].0, p);
        lemma_same_symbol_symmetric(c[j].0, q);
    }
    assert(is_first_index(c, leads_by(q), i)) by {
        assert forall|j: int| 0 <= j < i implies !leads_by::<T, U>(q)(#[trigger] c[j]) by {
            assert(!leads_by::<T, U>(p)(c[j]));
        }
    }
    lemma_first_index_unique(c, leads_by(q), i);
}

impl<T: PartialEq + Clone, U> Trie<T, U> {
    /// A trie that mirrors another stores the same bags, and is as well
    /// formed.
    pub proof fn lemma_mirror(self, other: Self)
        requires
            sound_symbols::<T>(),
            self.mirrors(other),
        ensures
            forall|path: Seq<T>| #[trigger] self.bag(path) == other.bag(path),
            other.wf() ==> self.wf(),
    {
        let a = other.adjecent_nodes@;
        let b = self.adjecent_nodes@;
        assert forall|i: int| 0 <= i < a.len() implies same_symbol((#[trigger] a[i]).0, b[i].0) by {
            assert(cloned(a[i].0, b[i].0));
            lemma_clone_is_same_symbol(a[i].0, b[i].0);
        }
        assert forall|path: Seq<T>| #[trigger] self.bag(path) == other.bag(path) by {
            if path.len() > 0 {
                lemma_same_lead(a, b, path[0]);
                let i = first_index(a, leads_by(path[0]));
                lemma_first_index(a, leads_by(path[0]));
                if i < a.len() {
                    assert(b[i].1 == a[i].1);
                }
            }
        }
        if other.wf() {
            Self::lemma_distinct_kept(a, b);
            assert forall|i: int| 0 <= i < b.len() implies (#[trigger] b[i]).1.wf() by {
                assert(a[i].1.wf());
            }
        }
    }

    /// The trie without values.
    pub fn empty_store() -> (res: Trie<T, U>)
        ensures
            forall|path: Seq<T>| #[trigger] res.bag(path) == Seq::<U>::empty(),
            res.wf(),
    {
        let res = Trie { stored_value: Vec::new(), adjecent_nodes: Vec::new() };
        proof {
            assert forall|path: Seq<T>| #[trigger] res.bag(path) == Seq::<U>::empty() by {
                if path.len() == 0 {
                    assert(pointees(res.stored_value@) =~= Seq::<U>::empty());
                }
            }
        }
        res
    }

    /// The trie without values.
    pub fn empty() -> (res: Trie<T, U>)
        ensures
            forall|path: Seq<T>| #[trigger] res.bag(path) == Seq::<U>::empty(),
            res.wf(),
    {
        Self::empty_store()
    }

    /// The position of the first child that hangs under a symbol equal to
    /// `sym`.
    fn find_child(&self, sym: &T) -> (res: Option<usize>)
        requires
            T::obeys_eq_spec(),
        ensures
            match res {
                Some(i) => i < self.adjecent_nodes@.len() && i == first_index(
                    self.adjecent_nodes@,
                    leads_by(*sym),
                ),
                None => first_index(self.adjecent_nodes@, leads_by(*sym))
                    == self.adjecent_nodes@.len(),
            },
    {
        let mut i: usize = 0;
        while i < self.adjecent_nodes.len()
            invariant
                T::obeys_eq_spec(),
                i <= self.adjecent_nodes@.len(),
                forall|j: int|
                    0 <= j < i ==> !leads_by::<T, U>(*sym)(#[trigger] self.adjecent_nodes@[j]),
            decreases self.adjecent_nodes@.len() - i,
        {
            if self.adjecent_nodes[i].0 == *sym {
                proof {
                    lemma_first_index_unique(self.adjecent_nodes@, leads_by(*sym), i as int);
                }
                return Some(i);
            }
            i += 1;
        }
        proof {
            lemma_first_index_unique(self.adjecent_nodes@, leads_by(*sym), i as int);
        }
        None
    }

    /// Where `b` holds the children of `a` under equal symbols, and `head`
    /// leads to the child at `i`: `sym` leads the same way in both, and to
    /// `i` where it equals `head`, and only there.
    proof fn lemma_lead_replaced(
        a: Seq<(T, RefCounter<Trie<T, U>>)>,
        b: Seq<(T, RefCounter<Trie<T, U>>)>,
        i: int,
        head: T,
        sym: T,
    )
        requires
            equivalence::<T>(),
            a.len() == b.len(),
            forall|j: int| 0 <= j < a.len() ==> same_symbol((#[trigger] a[j]).0, b[j].0),
            0 <= i < a.len(),
            i == first_index(a, leads_by(head)),
        ensures
            first_index(b, leads_by(sym)) == first_index(a, leads_by(sym)),
            0 <= first_index(a, leads_by(sym)) <= a.len(),
            same_symbol(sym, head) <==> first_index(a, leads_by(sym)) == i,
    {
        let k = first_index(a, leads_by(sym));
        lemma_same_lead(a, b, sym);
        lemma_first_index(a, leads_by(sym));
        lemma_first_index(a, leads_by(head));
        assert(same_symbol(a[i].0, head));
        if same_symbol(sym, head) {
            lemma_same_symbol_symmetric(sym, head);
            lemma_equal_symbols_lead_alike(a, head, sym);
        } else if k == i {
            assert(leads_by::<T, U>(sym)(a[i]));
            lemma_same_symbol_class(a[i].0, sym, head);
        }
    }

    /// How the bags of `new` follow from those of `old`, where `new` has
    /// the values of `old` and its children under equal symbols, all but the
    /// child at `i` the same: only the paths that lead through `i` see the
    /// new child.
    proof fn lemma_child_replaced(old: Self, new: Self, i: int, head: T)
        requires
            equivalence::<T>(),
            new.stored_value@ == old.stored_value@,
            new.adjecent_nodes@.len() == old.adjecent_nodes@.len(),
            forall|j: int|
                0 <= j < old.adjecent_nodes@.len() ==> same_symbol(
                    (#[trigger] old.adjecent_nodes@[j]).0,
                    new.adjecent_nodes@[j].0,
                ),
            forall|j: int|
                0 <= j < old.adjecent_nodes@.len() && j != i ==> (
                #[trigger] new.adjecent_nodes@[j]).1 == old.adjecent_nodes@[j].1,
            0 <= i < old.adjecent_nodes@.len(),
            i == first_index(old.adjecent_nodes@, leads_by(head)),
        ensures
            forall|path: Seq<T>|
                path.len() > 0 && same_symbol(path[0], head) ==> {
                    &&& #[trigger] new.bag(path) == new.adjecent_nodes@[i].1.bag(
                        path.drop_first(),
                    )
                    &&& old.bag(path) == old.adjecent_nodes@[i].1.bag(path.drop_first())
                },
            forall|path: Seq<T>|
                !(path.len() > 0 && same_symbol(path[0], head)) ==> #[trigger] new.bag(path)
                    == old.bag(path),
            old.wf() && new.adjecent_nodes@[i].1.wf() ==> new.wf(),
    {
        let a = old.adjecent_nodes@;
        let b = new.adjecent_nodes@;
        lemma_first_index(a, leads_by(head));
        assert(same_symbol(a[i].0, head));
        assert forall|path: Seq<T>| path.len() > 0 && same_symbol(path[0], head) implies {
            &&& #[trigger] new.bag(path) == b[i].1.bag(path.drop_first())
            &&& old.bag(path) == a[i].1.bag(path.drop_first())
        } by {
            Self::lemma_lead_replaced(a, b, i, head, path[0]);
        }
        assert forall|path: Seq<T>|
            !(path.len() > 0 && same_symbol(path[0], head)) implies #[trigger] new.bag(path)
            == old.bag(path) by {
            if path.len() > 0 {
                Self::lemma_lead_replaced(a, b, i, head, path[0]);
                let k = first_index(a, leads_by(path[0]));
                if k < a.len() {
                    assert(b[k].1 == a[k].1);
                }
            }
        }
        if old.wf() && b[i].1.wf() {
            Self::lemma_distinct_kept(a, b);
            assert forall|j: int| 0 <= j < b.len() implies (#[trigger] b[j]).1.wf() by {
                if j != i {
                    assert(a[j].1.wf());
                }
            }
        }
    }

    /// How the bags of `new` follow from those of `old`, where `new` is a
    /// mirror of `old` but for its own values: only the bag at the empty
    /// path differs.
    proof fn lemma_values_set(old: Self, mirror: Self, new: Self)
        requires
            sound_symbols::<T>(),
            mirror.mirrors(old),
            new.adjecent_nodes@ == mirror.adjecent_nodes@,
        ensures
            new.bag(Seq::<T>::empty()) == pointees(new.stored_value@),
            old.bag(Seq::<T>::empty()) == pointees(mirror.stored_value@),
            forall|other: Seq<T>|
                other.len() > 0 ==> #[trigger] new.bag(other) == old.bag(other),
            old.wf() ==> new.wf(),
    {
        mirror.lemma_mirror(old);
        assert forall|other: Seq<T>| other.len() > 0 implies #[trigger] new.bag(other) == old.bag(
            other,
        ) by {
            assert(new.bag(other) == mirror.bag(other));
        }
        if old.wf() {
            assert(mirror.wf());
        }
    }

    /// How the bags of `new` follow from those of `old`, where `new` is a
    /// mirror of `old` but for the child at `i`, which hangs under a clone
    /// of its symbol and may be another: only the paths that lead through
    /// `i` see the new child.
    proof fn lemma_child_set(old: Self, mirror: Self, new: Self, i: int, head: T)
        requires
            sound_symbols::<T>(),
            mirror.mirrors(old),
            new.stored_value@ == mirror.stored_value@,
            new.adjecent_nodes@.len() == mirror.adjecent_nodes@.len(),
            forall|j: int|
                0 <= j < mirror.adjecent_nodes@.len() && j != i ==> (
                #[trigger] new.adjecent_nodes@[j]) == mirror.adjecent_nodes@[j],
            0 <= i < old.adjecent_nodes@.len(),
            cloned(old.adjecent_nodes@[i].0, new.adjecent_nodes@[i].0),
            i == first_index(old.adjecent_nodes@, leads_by(head)),
        ensures
            forall|path: Seq<T>|
                path.len() > 0 && same_symbol(path[0], head) ==> {
                    &&& #[trigger] new.bag(path) == new.adjecent_nodes@[i].1.bag(
                        path.drop_first(),
                    )
                    &&& old.bag(path) == old.adjecent_nodes@[i].1.bag(path.drop_first())
                },
            forall|path: Seq<T>|
                !(path.len() > 0 && same_symbol(path[0], head)) ==> #[trigger] new.bag(path)
                    == old.bag(path),
            old.wf() ==> old.adjecent_nodes@[i].1.wf(),
            old.wf() && new.adjecent_nodes@[i].1.wf() ==> new.wf(),
    {
        let a = old.adjecent_nodes@;
        let b = new.adjecent_nodes@;
        assert forall|j: int| 0 <= j < a.len() implies same_symbol((#[trigger] a[j]).0, b[j].0) by {
            if j != i {
                assert(b[j] == mirror.adjecent_nodes@[j]);
            }
            lemma_clone_is_same_symbol(a[j].0, b[j].0);
        }
        assert forall|j: int| 0 <= j < a.len() && j != i implies (#[trigger] b[j]).1
            == a[j].1 by {
            assert(b[j] == mirror.adjecent_nodes@[j]);
        }
        Self::lemma_child_replaced(old, new, i, head);
        if old.wf() {
            assert(a[i].1.wf());
        }
    }

    /// Children under equal symbols are as distinct as the ones they stand
    /// for.
    proof fn lemma_distinct_kept(
        a: Seq<(T, RefCounter<Trie<T, U>>)>,
        b: Seq<(T, RefCounter<Trie<T, U>>)>,
    )
        requires
            equivalence::<T>(),
            a.len() == b.len(),
            forall|j: int| 0 <= j < a.len() ==> same_symbol((#[trigger] a[j]).0, b[j].0),
            forall|i: int, j: int|
                0 <= i < j < a.len() ==> !same_symbol((#[trigger] a[i]).0, (#[trigger] a[j]).0),
        ensures
            forall|i: int, j: int|
                0 <= i < j < b.len() ==> !same_symbol((#[trigger] b[i]).0, (#[trigger] b[j]).0),
    {
        assert forall|i: int, j: int| 0 <= i < j < b.len() implies !same_symbol(
            (#[trigger] b[i]).0,
            (#[trigger] b[j]).0,
        ) by {
            assert(same_symbol(a[i].0, b[i].0));
            assert(same_symbol(a[j].0, b[j].0));
            lemma_same_symbol_class(a[i].0, b[i].0, b[j].0);
            lemma_same_symbol_symmetric(a[i].0, b[j].0);
            lemma_same_symbol_symmetric(a[i].0, a[j].0);
            lemma_same_symbol_class(a[j].0, b[j].0, a[i].0);
        }
    }

    /// Where `b` holds the children of `a` under equal symbols and one more
    /// behind them, under a symbol equal to `head`, which led nowhere in `a`:
    /// `sym` leads in `b` where it led in `a`, to the new child where it
    /// equals `head`, and nowhere otherwise.
    proof fn lemma_lead_added(
        a: Seq<(T, RefCounter<Trie<T, U>>)>,
        b: Seq<(T, RefCounter<Trie<T, U>>)>,
        head: T,
        sym: T,
    )
        requires
            equivalence::<T>(),
            b.len() == a.len() + 1,
            forall|j: int| 0 <= j < a.len() ==> same_symbol((#[trigger] a[j]).0, b[j].0),
            same_symbol(head, b.last().0),
            first_index(a, leads_by(head)) == a.len(),
        ensures
            0 <= first_index(a, leads_by(sym)) <= a.len(),
            first_index(a, leads_by(sym)) < a.len() ==> first_index(b, leads_by(sym))
                == first_index(a, leads_by(sym)),
            same_symbol(sym, head) ==> first_index(a, leads_by(sym)) == a.len() && first_index(
                b,
                leads_by(sym),
            ) == a.len(),
            first_index(a, leads_by(sym)) == a.len() && !same_symbol(sym, head) ==> first_index(
                b,
                leads_by(sym),
            ) == b.len(),
    {
        let n = a.len() as int;
        let k = first_index(a, leads_by(sym));
        let fresh = b.last();
        assert(b[n] == fresh);
        lemma_first_index(a, leads_by(sym));
        lemma_first_index(a, leads_by(head));
        assert forall|j: int| 0 <= j < n implies leads_by::<T, U>(sym)(#[trigger] b[j])
            == leads_by::<T, U>(sym)(a[j]) by {
            assert(same_symbol(a[j].0, b[j].0));
            lemma_same_symbol_class(a[j].0, b[j].0, sym);
        }
        assert(leads_by::<T, U>(sym)(fresh) == same_symbol(sym, head)) by {
            lemma_same_symbol_class(head, fresh.0, sym);
            lemma_same_symbol_symmetric(fresh.0, sym);
            lemma_same_symbol_symmetric(head, sym);
        }
        assert forall|j: int| 0 <= j < k implies !leads_by::<T, U>(sym)(#[trigger] b[j]) by {
            assert(!leads_by::<T, U>(sym)(a[j]));
        }
        if same_symbol(sym, head) {
            if k < n {
                assert(leads_by::<T, U>(sym)(a[k]));
                assert(!leads_by::<T, U>(head)(a[k]));
                lemma_same_symbol_class(sym, head, a[k].0);
                lemma_same_symbol_symmetric(a[k].0, sym);
                lemma_same_symbol_symmetric(a[k].0, head);
            }
            lemma_first_index_unique(b, leads_by(sym), n);
        } else if k < n {
            lemma_first_index_unique(b, leads_by(sym), k);
        } else {
            lemma_first_index_unique(b, leads_by(sym), n + 1);
        }
    }

    /// How the bags of `new` follow from those of `old`, where `new` has
    /// the values of `old`, its children under equal symbols, and behind
    /// them one more child under a symbol that led nowhere in `old`: only the
    /// paths that begin with that symbol see the new child.
    proof fn lemma_child_added(old: Self, new: Self, head: T)
        requires
            equivalence::<T>(),
            new.stored_value@ == old.stored_value@,
            new.adjecent_nodes@.len() == old.adjecent_nodes@.len() + 1,
            forall|j: int|
                0 <= j < old.adjecent_nodes@.len() ==> {
                    &&& same_symbol(
                        (#[trigger] old.adjecent_nodes@[j]).0,
                        new.adjecent_nodes@[j].0,
                    )
                    &&& new.adjecent_nodes@[j].1 == old.adjecent_nodes@[j].1
                },
            same_symbol(head, new.adjecent_nodes@.last().0),
            first_index(old.adjecent_nodes@, leads_by(head)) == old.adjecent_nodes@.len(),
        ensures
            forall|path: Seq<T>|
                path.len() > 0 && same_symbol(path[0], head) ==> {
                    &&& #[trigger] new.bag(path) == new.adjecent_nodes@.last().1.bag(
                        path.drop_first(),
                    )
                    &&& old.bag(path) == Seq::<U>::empty()
                },
            forall|path: Seq<T>|
                !(path.len() > 0 && same_symbol(path[0], head)) ==> #[trigger] new.bag(path)
                    == old.bag(path),
            old.wf() && new.adjecent_nodes@.last().1.wf() ==> new.wf(),
    {
        let a = old.adjecent_nodes@;
        let b = new.adjecent_nodes@;
        let n = a.len() as int;
        let front = b.drop_last();
        let fresh = b.last();
        assert(b[n] == fresh);
        assert forall|j: int| 0 <= j < n implies same_symbol((#[trigger] a[j]).0, front[j].0) by {
            assert(front[j] == b[j]);
        }
        lemma_first_index(a, leads_by(head));
        assert forall|path: Seq<T>| path.len() > 0 && same_symbol(path[0], head) implies {
            &&& #[trigger] new.bag(path) == fresh.1.bag(path.drop_first())
            &&& old.bag(path) == Seq::<U>::empty()
        } by {
            Self::lemma_lead_added(a, b, head, path[0]);
        }
        assert forall|path: Seq<T>|
            !(path.len() > 0 && same_symbol(path[0], head)) implies #[trigger] new.bag(path)
            == old.bag(path) by {
            if path.len() > 0 {
                Self::lemma_lead_added(a, b, head, path[0]);
                let k = first_index(a, leads_by(path[0]));
                if k < n {
                    assert(b[k].1 == a[k].1);
                }
            }
        }
        if old.wf() && fresh.1.wf() {
            Self::lemma_distinct_kept(a, front);
            assert forall|i: int, j: int| 0 <= i < j < b.len() implies !same_symbol(
                (#[trigger] b[i]).0,
                (#[trigger] b[j]).0,
            ) by {
                if j < n {
                    assert(front[i] == b[i] && front[j] == b[j]);
                } else {
                    assert(!leads_by::<T, U>(head)(a[i]));
                    assert(same_symbol(a[i].0, b[i].0));
                    if same_symbol(b[i].0, fresh.0) {
                        lemma_same_symbol_transitive(a[i].0, b[i].0, fresh.0);
                        lemma_same_symbol_symmetric(head, fresh.0);
                        lemma_same_symbol_transitive(a[i].0, fresh.0, head);
                    }
                }
            }
            assert forall|j: int| 0 <= j < b.len() implies (#[trigger] b[j]).1.wf() by {
                if j < n {
                    assert(a[j].1.wf());
                }
            }
        }
    }

    /// The trie in which `store` has been added, behind the others, to the
    /// bag at the path `value`. Nodes that the path lacks are created; all
    /// other bags stay as they are.
    pub fn insert_store(&self, value: &[T], store: U) -> (res: Self)
        requires
            sound_symbols::<T>(),
        ensures
            res.bag(value@) == self.bag(value@).push(store),
            forall|other: Seq<T>|
                !same_path(other, value@) ==> #[trigger] res.bag(other) == self.bag(other),
            self.wf() ==> res.wf(),
        decreases value.len(),
    {
        let mut new_trie = self.clone();
        proof {
            lemma_equality_is_specified::<T>();
        }
        if value.len() == 0 {
            let ghost mirror = new_trie;
            new_trie.stored_value.push(RefCounter::new(store));
            proof {
                assert(pointees(new_trie.stored_value@) =~= pointees(mirror.stored_value@).push(
                    store,
                ));
                Self::lemma_values_set(*self, mirror, new_trie);
            }
            return new_trie;
        }
        let head = &value[0];
        let tail = vstd::slice::slice_subrange(value, 1, value.len());
        let ghost path = value@;
        proof {
            assert(tail@ == path.drop_first());
            lemma_same_symbol_reflexive(*head);
            lemma_same_path_from_rest(path);
        }
        match self.find_child(head) {
            Some(i) => {
                let child = self.adjecent_nodes[i].1.insert_store(tail, store);
                let symbol = self.adjecent_nodes[i].0.clone();
                let ghost mirror = new_trie;
                new_trie.adjecent_nodes.set(i, (symbol, RefCounter::new(child)));
                proof {
                    Self::lemma_child_set(*self, mirror, new_trie, i as int, *head);
                }
                new_trie
            },
            None => {
                let fresh = Trie::empty_store().insert_store(tail, store);
                let symbol = head.clone();
                let ghost mirror = new_trie;
                new_trie.adjecent_nodes.push((symbol, RefCounter::new(fresh)));
                proof {
                    let a = self.adjecent_nodes@;
                    let b = new_trie.adjecent_nodes@;
                    assert forall|j: int| 0 <= j < a.len() implies {
                        &&& same_symbol((#[trigger] a[j]).0, b[j].0)
                        &&& b[j].1 == a[j].1
                    } by {
                        assert(b[j] == mirror.adjecent_nodes@[j]);
                        lemma_clone_is_same_symbol(a[j].0, b[j].0);
                    }
                    lemma_clone_is_same_symbol(*head, symbol);
                    Self::lemma_child_added(*self, new_trie, *head);
                }
                new_trie
            },
        }
    }

    /// The values stored at the path `value`, in the order in which they
    /// were inserted; `None` where the path leads nowhere or its bag is
    /// empty.
    pub fn get_store(&self, value: &[T]) -> (res: Option<Box<[&U]>>)
        requires
            T::obeys_eq_spec(),
        ensures
            match res {
                Some(found) => found@.len() > 0 && referents(found@) == self.bag(value@),
                None => self.bag(value@).len() == 0,
            },
        decreases value.len(),
    {
        if value.len() == 0 {
            let mut vr: Vec<&U> = Vec::new();
            let mut i: usize = 0;
            while i < self.stored_value.len()
                invariant
                    i <= self.stored_value@.len(),
                    referents(vr@) == pointees(self.stored_value@).take(i as int),
                decreases self.stored_value@.len() - i,
            {
                let ghost before = vr@;
                vr.push(&*self.stored_value[i]);
                proof {
                    assert(referents(vr@) =~= referents(before).push(
                        *self.stored_value@[i as int],
                    ));
                    assert(pointees(self.stored_value@).take(i + 1) =~= pointees(
                        self.stored_value@,
                    ).take(i as int).push(*self.stored_value@[i as int]));
                }
                i += 1;
            }
            proof {
                assert(pointees(self.stored_value@).take(i as int) =~= pointees(
                    self.stored_value@,
                ));
                assert(referents(vr@).len() == vr@.len());
            }
            if vr.len() == 0 {
                return None;
            }
            return Some(into_boxed_slice(vr));
        }
        let head = &value[0];
        let tail = vstd::slice::slice_subrange(value, 1, value.len());
        proof {
            assert(tail@ == value@.drop_first());
        }
        match self.find_child(head) {
            Some(i) => self.adjecent_nodes[i].1.get_store(tail),
            None => None,
        }
    }
}

impl<T: PartialEq + Clone, U: PartialEq> Trie<T, U> {
    /// The trie from whose bag at the path `value` the first entry equal to
    /// `store` has been taken; all other entries and bags stay as they are.
    /// `None` where the path leads nowhere or its bag holds no such entry.
    pub fn delete_store(&self, value: &[T], store: &U) -> (res: Option<Self>)
        requires
            sound_symbols::<T>(),
            U::obeys_eq_spec(),
        ensures
            res is None <==> first_index(self.bag(value@), equal_to(*store)) == self.bag(
                value@,
            ).len(),
            res matches Some(trie) ==> {
                &&& trie.bag(value@) == self.bag(value@).remove(
                    first_index(self.bag(value@), equal_to(*store)),
                )
                &&& forall|other: Seq<T>|
                    !same_path(other, value@) ==> #[trigger] trie.bag(other) == self.bag(other)
                &&& self.wf() ==> trie.wf()
            },
        decreases value.len(),
    {
        let ghost bag = self.bag(value@);
        let ghost target = equal_to(*store);
        proof {
            lemma_equality_is_specified::<T>();
            lemma_first_index(bag, target);
        }
        if value.len() == 0 {
            let mut i: usize = 0;
            while i < self.stored_value.len()
                invariant
                    U::obeys_eq_spec(),
                    bag == pointees(self.stored_value@),
                    target == equal_to(*store),
                    i <= self.stored_value@.len(),
                    forall|j: int| 0 <= j < i ==> !target(#[trigger] bag[j]),
                ensures
                    i < self.stored_value@.len() ==> target(bag[i as int]),
                decreases self.stored_value@.len() - i,
            {
                if *self.stored_value[i] == *store {
                    proof {
                        assert(bag[i as int] == *self.stored_value@[i as int]);
                    }
                    break ;
                }
                proof {
                    assert(bag[i as int] == *self.stored_value@[i as int]);
                }
                i += 1;
            }
            proof {
                lemma_first_index_unique(bag, target, i as int);
            }
            if i == self.stored_value.len() {
                return None;
            }
            let mut new_trie = self.clone();
            let ghost mirror = new_trie;
            new_trie.stored_value.remove(i);
            proof {
                assert(pointees(new_trie.stored_value@) =~= pointees(mirror.stored_value@).remove(
                    i as int,
                ));
                Self::lemma_values_set(*self, mirror, new_trie);
            }
            return Some(new_trie);
        }
        let head = &value[0];
        let tail = vstd::slice::slice_subrange(value, 1, value.len());
        let ghost path = value@;
        proof {
            assert(tail@ == path.drop_first());
            lemma_same_symbol_reflexive(*head);
            lemma_same_path_from_rest(path);
        }
        match self.find_child(head) {
            Some(i) => {
                match self.adjecent_nodes[i].1.delete_store(tail, store) {
                    Some(subt) => {
                        let mut new_trie = self.clone();
                        let symbol = self.adjecent_nodes[i].0.clone();
                        let ghost mirror = new_trie;
                        new_trie.adjecent_nodes.set(i, (symbol, RefCounter::new(subt)));
                        proof {
                            Self::lemma_child_set(*self, mirror, new_trie, i as int, *head);
                        }
                        Some(new_trie)
                    },
                    None => None,
                }
            },
            None => None,
        }
    }
}

impl<T: PartialEq + Copy> Trie<T> {
    /// The set to which the path `value` has been added: one more `true`
    /// in its bag.
    pub fn insert(&self, value: &[T]) -> (res: Self)
        requires
            sound_symbols::<T>(),
        ensures
            res.bag(value@) == self.bag(value@).push(true),
            forall|other: Seq<T>|
                !same_path(other, value@) ==> #[trigger] res.bag(other) == self.bag(other),
            self.wf() ==> res.wf(),
    {
        self.insert_store(value, true)
    }

    /// Whether the bag at the path `value` holds anything.
    pub fn search(&self, value: &[T]) -> (res: bool)
        requires
            T::obeys_eq_spec(),
        ensures
            res == (self.bag(value@).len() > 0),
    {
        self.get_store(value).is_some()
    }

    /// The set from which the path `value` has been taken once: the first
    /// `true` has left its bag. `None` where the bag holds none.
    pub fn delete(&self, value: &[T]) -> (res: Option<Self>)
        requires
            sound_symbols::<T>(),
        ensures
            res is None <==> first_index(self.bag(value@), equal_to(true)) == self.bag(
                value@,
            ).len(),
            res matches Some(trie) ==> {
                &&& trie.bag(value@) == self.bag(value@).remove(
                    first_index(self.bag(value@), equal_to(true)),
                )
                &&& forall|other: Seq<T>|
                    !same_path(other, value@) ==> #[trigger] trie.bag(other) == self.bag(other)
                &&& self.wf() ==> trie.wf()
            },
    {
        self.delete_store(value, &true)
    }
}

/// Paths that are equal symbol by symbol lead to the same bag.
pub proof fn bags_follow_symbol_equality<T: PartialEq, U>(trie: &Trie<T, U>, p: Seq<T>, q: Seq<T>)
    requires
        equivalence::<T>(),
        same_path(p, q),
    ensures
        trie.bag(p) == trie.bag(q),
    decreases p.len(),
{
    if p.len() > 0 {
        let c = trie.adjecent_nodes@;
        let i = first_index(c, leads_by(p[0]));
        lemma_first_index(c, leads_by(p[0]));
        assert(same_symbol(p[0], q[0]));
        lemma_equal_symbols_lead_alike(c, p[0], q[0]);
        if i < c.len() {
            assert forall|j: int| 0 <= j < p.drop_first().len() implies same_symbol(
                #[trigger] p.drop_first()[j],
                q.drop_first()[j],
            ) by {
                assert(same_symbol(p[j + 1], q[j + 1]));
            }
            bags_follow_symbol_equality(&*c[i].1, p.drop_first(), q.drop_first());
        }
    }
}

/// Round trip of an insertion: where `after` stores at `path` what
/// `before` stores there and `v` behind it, as `insert_store` leaves it, the
/// bag at `path` is not empty, so that `get_store` hands it out, and `v` is
/// its last entry.
pub proof fn insert_then_get<T: PartialEq, U>(
    before: Trie<T, U>,
    after: Trie<T, U>,
    path: Seq<T>,
    v: U,
)
    requires
        after.bag(path) == before.bag(path).push(v),
    ensures
        after.bag(path).len() == before.bag(path).len() + 1,
        after.bag(path).last() == v,
        after.bag(path).contains(v),
        forall|j: int|
            0 <= j < before.bag(path).len() ==> #[trigger] after.bag(path)[j] == before.bag(
                path,
            )[j],
{
    let bag = after.bag(path);
    assert(bag[bag.len() - 1] == v);
}

/// Round trip of a removal: where `after` stores at `path` what `before`
/// stores there but for its first entry equal to `v`, as `delete_store`
/// leaves it, that one occurrence is gone from what `get_store` hands out:
/// the entries before it stand where they stood, those behind it one place
/// nearer, and the entry that left was equal to `v`.
pub proof fn delete_then_get<T: PartialEq, U: PartialEq>(
    before: Trie<T, U>,
    after: Trie<T, U>,
    path: Seq<T>,
    v: U,
)
    requires
        first_index(before.bag(path), equal_to(v)) < before.bag(path).len(),
        after.bag(path) == before.bag(path).remove(first_index(before.bag(path), equal_to(v))),
    ensures
        after.bag(path).len() == before.bag(path).len() - 1,
        equal_to(v)(before.bag(path)[first_index(before.bag(path), equal_to(v))]),
        forall|j: int|
            0 <= j < first_index(before.bag(path), equal_to(v)) ==> #[trigger] after.bag(path)[j]
                == before.bag(path)[j] && !equal_to(v)(after.bag(path)[j]),
        forall|j: int|
            first_index(before.bag(path), equal_to(v)) <= j < after.bag(path).len()
                ==> #[trigger] after.bag(path)[j] == before.bag(path)[j + 1],
{
    lemma_first_index(before.bag(path), equal_to(v));
}

/// No removal without a match: `delete_store` returns `None` exactly where
/// no entry of the bag at the path equals the value, as at a path that
/// leads nowhere, whose bag is empty.
pub proof fn delete_without_match<T: PartialEq, U: PartialEq>(
    trie: Trie<T, U>,
    path: Seq<T>,
    v: U,
)
    ensures
        first_index(trie.bag(path), equal_to(v)) == trie.bag(path).len() <==> forall|j: int|
            0 <= j < trie.bag(path).len() ==> !equal_to(v)(#[trigger] trie.bag(path)[j]),
        trie.bag(path).len() == 0 ==> first_index(trie.bag(path), equal_to(v)) == trie.bag(
            path,
        ).len(),
{
    lemma_first_index_none(trie.bag(path), equal_to(v));
}

} // verus!
