use crate::scan::{
    first_index, lemma_first_index, lemma_first_index_mapped, lemma_first_index_push,
    lemma_first_index_remove, lemma_first_index_unique,
};
use crate::symbols::{
    equal_to, equivalence, faithful_clone, lemma_equality_is_specified, lemma_same_symbol_class,
    lemma_same_symbol_reflexive, lemma_same_symbol_symmetric, same_path, same_symbol,
    sound_symbols,
};
use crate::trie::Trie;
use std::collections::hash_map::DefaultHasher;
use std::hash::{Hash, Hasher};
use std::marker::PhantomData;
use vstd::prelude::*;
use vstd::std_specs::cmp::{PartialEqSpec, PartialEqSpecImpl};

verus! {

/// An entry of a bucket. Two entries are equal where their keys are; the
/// value plays no part in it.
pub struct KeyValue<K, V> {
    pub key: K,
    pub value: Option<V>,
}

impl<K: PartialEq, V> PartialEq for KeyValue<K, V> {
    fn eq(&self, other: &Self) -> (res: bool) {
        self.key == other.key
    }
}

impl<K: PartialEq, V> PartialEqSpecImpl for KeyValue<K, V> {
    open spec fn obeys_eq_spec() -> bool {
        K::obeys_eq_spec()
    }

    open spec fn eq_spec(&self, other: &Self) -> bool {
        self.key.eq_spec(&other.key)
    }
}

/// A persistent hash map: the entries are kept in a trie, each in the
/// bucket at the path that the 64 bits of its key's hash spell.
pub struct HashMap<K, V = ()> {
    trie: Trie<bool, KeyValue<K, V>>,
    phantom: PhantomData<K>,
}

/// The map as a set: every key is bound to `()`.
pub type HashSet<K> = HashMap<K, ()>;

/// The path that a hash spells: its 64 bits, the lowest first.
pub open spec fn hash_path(hash: u64) -> Seq<bool> {
    Seq::new(64, |i: int| hash & (1u64 << (i as u64)) > 0)
}

/// `a` and `b` have the same bits below `n`.
spec fn same_low_bits(a: u64, b: u64, n: u64) -> bool {
    ((a ^ b) >> n) << n == a ^ b
}

/// Two hashes that spell the same path agree in their bits below `n`.
proof fn lemma_low_bits(a: u64, b: u64, n: u64)
    requires
        n <= 63,
        hash_path(a) == hash_path(b),
    ensures
        same_low_bits(a, b, n),
    decreases n,
{
    if n == 0 {
        assert(((a ^ b) >> 0) << 0 == a ^ b) by (bit_vector);
    } else {
        let m = (n - 1) as u64;
        lemma_low_bits(a, b, m);
        assert(hash_path(a)[m as int] == (a & (1u64 << m) > 0));
        assert(hash_path(b)[m as int] == (b & (1u64 << m) > 0));
        assert(((a ^ b) >> n) << n == a ^ b) by (bit_vector)
            requires
                0 < n <= 63,
                m + 1 == n,
                ((a ^ b) >> m) << m == a ^ b,
                (a & (1u64 << m) > 0) == (b & (1u64 << m) > 0),
        ;
    }
}

/// Different hashes spell different paths.
pub proof fn hash_paths_differ(a: u64, b: u64)
    requires
        a != b,
    ensures
        hash_path(a) != hash_path(b),
{
    if hash_path(a) == hash_path(b) {
        lemma_low_bits(a, b, 63);
        assert(hash_path(a)[63] == (a & (1u64 << 63) > 0));
        assert(hash_path(b)[63] == (b & (1u64 << 63) > 0));
        assert(a == b) by (bit_vector)
            requires
                ((a ^ b) >> 63) << 63 == a ^ b,
                (a & (1u64 << 63) > 0) == (b & (1u64 << 63) > 0),
        ;
    }
}

/// The path that `hash` spells.
pub fn path_of(hash: u64) -> (bits: Vec<bool>)
    ensures
        bits@ == hash_path(hash),
{
    let mut bits: Vec<bool> = Vec::new();
    let mut i: u64 = 0;
    while i < 64
        invariant
            i <= 64,
            bits@.len() == i,
            forall|j: int| 0 <= j < i ==> bits@[j] == (hash & (1u64 << (j as u64)) > 0),
        decreases 64 - i,
    {
        bits.push(hash & (1u64 << i) > 0);
        i += 1;
    }
    proof {
        assert(bits@ =~= hash_path(hash));
    }
    bits
}

/// `Hash::hash`: feeds `key` to `state`. What reaches the hasher is up to
/// the key's own impl, so nothing is said of the state that results.
#[verifier::external_body]
fn feed<K: Hash>(key: &K, state: &mut DefaultHasher) {
    key.hash(state);
}

/// The hash of `key`: what a fresh default hasher makes of what the key's impl wrote to it.
fn hash_of<K: Hash>(key: &K) -> (hash: u64)
    ensures
        exists|written: Seq<Seq<u8>>| hash == #[trigger] digest(written),
{
    let mut s = DefaultHasher::new();
    feed(key, &mut s);
    let hash = s.finish();
    proof {
        assert(hash == digest(s@));
    }
    hash
}

/// What the default hasher makes of a sequence of writes.
pub open spec fn digest(written: Seq<Seq<u8>>) -> u64 {
    <DefaultHasher as vstd::std_specs::hash::DefaultHasherAdditionalSpecFns>::spec_finish(written)
}

/// Holds of the entries whose key equals `k`.
pub open spec fn has_key<K: PartialEq, V>(k: K) -> spec_fn((K, V)) -> bool {
    |e: (K, V)| same_symbol(e.0, k)
}

/// The value of the first entry of `bucket` whose key equals `k`.
pub open spec fn found<K: PartialEq, V>(bucket: Seq<(K, V)>, k: K) -> Option<V> {
    let i = first_index(bucket, has_key(k));
    if i < bucket.len() {
        Some(bucket[i].1)
    } else {
        None
    }
}

/// Key and value of an entry.
pub open spec fn pair_of<K, V>() -> spec_fn(KeyValue<K, V>) -> (K, V) {
    |e: KeyValue<K, V>| (e.key, e.value.unwrap())
}

/// Booleans make a sound alphabet.
proof fn lemma_bits_are_sound()
    ensures
        sound_symbols::<bool>(),
{
    reveal(equivalence);
    reveal(faithful_clone);
}

/// Two paths of booleans that are equal place by place are one path.
proof fn lemma_same_bits(p: Seq<bool>, q: Seq<bool>)
    requires
        same_path(p, q),
    ensures
        p == q,
{
    assert(p =~= q);
}

impl<K, V> HashMap<K, V> {
    /// Every entry that the map stores has a value.
    #[verifier::type_invariant]
    spec fn holds_values(self) -> bool {
        forall|path: Seq<bool>, i: int|
            0 <= i < self.trie.bag(path).len() ==> (#[trigger] self.trie.bag(path)[i]).value
                is Some
    }

    /// The entries of the bucket at `path`, oldest first.
    pub closed spec fn bucket(&self, path: Seq<bool>) -> Seq<(K, V)> {
        self.trie.bag(path).map_values(pair_of())
    }

    /// This map is `before` with `key` bound to `value` in a new entry, the
    /// last of the bucket at the path of `hash`.
    pub open spec fn extends(&self, before: &Self, hash: u64, key: K, value: V) -> bool {
        &&& self.bucket(hash_path(hash)) == before.bucket(hash_path(hash)).push((key, value))
        &&& forall|path: Seq<bool>|
            path != hash_path(hash) ==> #[trigger] self.bucket(path) == before.bucket(path)
    }

    /// The map without entries.
    pub fn new() -> (res: HashMap<K, V>)
        ensures
            forall|path: Seq<bool>| #[trigger] res.bucket(path) == Seq::<(K, V)>::empty(),
    {
        let trie = Trie::empty_store();
        proof {
            assert forall|path: Seq<bool>| #[trigger]
                trie.bag(path).map_values(pair_of::<K, V>()) == Seq::<(K, V)>::empty() by {
                assert(trie.bag(path).map_values(pair_of::<K, V>()) =~= Seq::<(K, V)>::empty());
            }
        }
        HashMap { trie, phantom: PhantomData }
    }
}

impl<K, V> Default for HashMap<K, V> {
    /// The map without entries.
    fn default() -> (res: Self)
        ensures
            forall|path: Seq<bool>| #[trigger] res.bucket(path) == Seq::<(K, V)>::empty(),
    {
        Self::new()
    }
}

impl<K, V> Clone for HashMap<K, V> {
    /// A second handle on the same entries.
    fn clone(&self) -> (res: Self)
        ensures
            forall|path: Seq<bool>| #[trigger] res.bucket(path) == self.bucket(path),
    {
        proof {
            use_type_invariant(self);
        }
        let trie = self.trie.clone();
        proof {
            lemma_bits_are_sound();
            trie.lemma_mirror(self.trie);
        }
        HashMap { trie, phantom: PhantomData }
    }
}

impl<K: PartialEq, V> HashMap<K, V> {
    /// This map is `before` without the first entry of the bucket at the
    /// path of `hash` whose key equals `key`.
    pub open spec fn lacks(&self, before: &Self, hash: u64, key: K) -> bool {
        let bucket = before.bucket(hash_path(hash));
        &&& self.bucket(hash_path(hash)) == bucket.remove(first_index(bucket, has_key(key)))
        &&& forall|path: Seq<bool>|
            path != hash_path(hash) ==> #[trigger] self.bucket(path) == before.bucket(path)
    }

    /// The map in which `key` is bound to `value` by a new entry at the end
    /// of the bucket that `hash` addresses. Entries with an equal key stay.
    pub fn put_hashed(&self, hash: u64, key: K, value: V) -> (res: Self)
        ensures
            res.extends(self, hash, key, value),
    {
        proof {
            use_type_invariant(self);
            lemma_bits_are_sound();
        }
        let bits = path_of(hash);
        let entry = KeyValue { key, value: Some(value) };
        let trie = self.trie.insert_store(bits.as_slice(), entry);
        proof {
            let path = hash_path(hash);
            assert(trie.bag(path).map_values(pair_of()) =~= self.trie.bag(path).map_values(
                pair_of(),
            ).push((key, value)));
            assert forall|other: Seq<bool>| other != path implies #[trigger] trie.bag(other)
                == self.trie.bag(other) by {
                if same_path(other, path) {
                    lemma_same_bits(other, path);
                }
            }
            assert forall|other: Seq<bool>, i: int| 0 <= i < trie.bag(other).len() implies (
            #[trigger] trie.bag(other)[i]).value is Some by {
                if other != path {
                    assert(trie.bag(other) == self.trie.bag(other));
                } else if i < self.trie.bag(path).len() {
                    assert(trie.bag(path)[i] == self.trie.bag(path)[i]);
                }
            }
        }
        HashMap { trie, phantom: PhantomData }
    }

    /// The value of the oldest entry with a key equal to `k` in the bucket
    /// that `hash` addresses.
    pub fn get_hashed(&self, hash: u64, k: &K) -> (res: Option<&V>)
        requires
            equivalence::<K>(),
        ensures
            res == match found(self.bucket(hash_path(hash)), *k) {
                Some(v) => Some(&v),
                None => None,
            },
    {
        proof {
            use_type_invariant(self);
            lemma_equality_is_specified::<K>();
        }
        let bits = path_of(hash);
        let ghost bag = self.trie.bag(hash_path(hash));
        let ghost bucket = self.bucket(hash_path(hash));
        match self.trie.get_store(bits.as_slice()) {
            None => {
                proof {
                    lemma_first_index(bucket, has_key(*k));
                }
                None
            },
            Some(store) => {
                let entries = store.into_vec();
                let mut i: usize = 0;
                while i < entries.len()
                    invariant
                        K::obeys_eq_spec(),
                        equivalence::<K>(),
                        i <= entries@.len(),
                        entries@.len() == bag.len(),
                        bucket == self.bucket(hash_path(hash)),
                        bucket == bag.map_values(pair_of()),
                        forall|j: int| 0 <= j < bag.len() ==> *entries@[j] == bag[j],
                        forall|j: int| 0 <= j < bag.len() ==> (#[trigger] bag[j]).value is Some,
                        forall|j: int| 0 <= j < i ==> !has_key::<K, V>(*k)(#[trigger] bucket[j]),
                    decreases entries@.len() - i,
                {
                    let entry = entries[i];
                    proof {
                        assert(*entry == bag[i as int]);
                        assert(bag[i as int].value is Some);
                        lemma_same_symbol_symmetric(*k, entry.key);
                        assert(bucket[i as int] == (entry.key, entry.value.unwrap()));
                    }
                    if *k == entry.key {
                        proof {
                            lemma_first_index_unique(bucket, has_key(*k), i as int);
                        }
                        return entry.value.as_ref();
                    }
                    i += 1;
                }
                proof {
                    lemma_first_index_unique(bucket, has_key(*k), i as int);
                }
                None
            },
        }
    }

    /// The map without the oldest entry with a key equal to `key` in the
    /// bucket that `hash` addresses; `None` where that bucket holds no such
    /// entry.
    pub fn delete_hashed(&self, hash: u64, key: K) -> (res: Option<Self>)
        requires
            equivalence::<K>(),
        ensures
            res is None <==> found(self.bucket(hash_path(hash)), key) is None,
            res matches Some(map) ==> map.lacks(self, hash, key),
    {
        proof {
            use_type_invariant(self);
            lemma_bits_are_sound();
            lemma_equality_is_specified::<K>();
        }
        let bits = path_of(hash);
        let target = KeyValue { key, value: None };
        let ghost path = hash_path(hash);
        let ghost bag = self.trie.bag(path);
        proof {
            assert forall|j: int| 0 <= j < bag.len() implies has_key::<K, V>(key)(
                pair_of()(#[trigger] bag[j]),
            ) == equal_to(target)(bag[j]) by {}
            lemma_first_index_mapped(bag, pair_of(), equal_to(target), has_key::<K, V>(key));
            lemma_first_index(bag, equal_to(target));
        }
        match self.trie.delete_store(bits.as_slice(), &target) {
            Some(trie) => {
                proof {
                    let i = first_index(bag, equal_to(target));
                    assert(trie.bag(path).map_values(pair_of()) =~= bag.map_values(
                        pair_of(),
                    ).remove(i));
                    assert forall|other: Seq<bool>| other != path implies #[trigger] trie.bag(
                        other,
                    ) == self.trie.bag(other) by {
                        if same_path(other, path) {
                            lemma_same_bits(other, path);
                        }
                    }
                    assert forall|other: Seq<bool>, j: int|
                        0 <= j < trie.bag(other).len() implies (#[trigger] trie.bag(
                        other,
                    )[j]).value is Some by {
                        if other != path {
                            assert(trie.bag(other) == self.trie.bag(other));
                        } else if j < i {
                            assert(trie.bag(path)[j] == bag[j]);
                        } else {
                            assert(trie.bag(path)[j] == bag[j + 1]);
                        }
                    }
                }
                Some(HashMap { trie, phantom: PhantomData })
            },
            None => None,
        }
    }
}

impl<K: Hash + PartialEq, V> HashMap<K, V> {
    /// The map in which `key` is bound to `value` by a new entry in the
    /// bucket of the key's hash. Entries with an equal key stay, and stay
    /// in front.
    pub fn put(&self, key: K, value: V) -> (res: Self)
        ensures
            exists|hash: u64| res.extends(self, hash, key, value),
    {
        let hash = hash_of(&key);
        let res = self.put_hashed(hash, key, value);
        proof {
            assert(res.extends(self, hash, key, value));
        }
        res
    }

    /// The value of the oldest entry with a key equal to `k` in the bucket
    /// of the hash of `k`.
    pub fn get(&self, k: &K) -> (res: Option<&V>)
        requires
            equivalence::<K>(),
        ensures
            exists|hash: u64|
                res == match found(self.bucket(#[trigger] hash_path(hash)), *k) {
                    Some(v) => Some(&v),
                    None => None,
                },
    {
        let hash = hash_of(k);
        let res = self.get_hashed(hash, k);
        proof {
            assert(res == match found(self.bucket(hash_path(hash)), *k) {
                Some(v) => Some(&v),
                None => None,
            });
        }
        res
    }

    /// The map without the oldest entry with a key equal to `key` in the
    /// bucket of the key's hash; `None` where that bucket holds no such
    /// entry.
    pub fn delete(&self, key: K) -> (res: Option<Self>)
        requires
            equivalence::<K>(),
        ensures
            exists|hash: u64|
                {
                    &&& res is None <==> found(self.bucket(#[trigger] hash_path(hash)), key)
                        is None
                    &&& res matches Some(map) ==> map.lacks(self, hash, key)
                },
    {
        let hash = hash_of(&key);
        let res = self.delete_hashed(hash, key);
        proof {
            assert(res is None <==> found(self.bucket(hash_path(hash)), key) is None);
        }
        res
    }
}

impl<K: Hash + PartialEq> HashMap<K> {
    /// The set with `value` added.
    pub fn insert(&self, value: K) -> (res: Self)
        ensures
            exists|hash: u64| res.extends(self, hash, value, ()),
    {
        self.put(value, ())
    }

    /// Whether the bucket of the hash of `value` holds an element equal to
    /// it.
    pub fn search(&self, value: &K) -> (res: bool)
        requires
            equivalence::<K>(),
        ensures
            exists|hash: u64| res == found(self.bucket(#[trigger] hash_path(hash)), *value) is Some,
    {
        self.get(value).is_some()
    }
}

/// A lookup in a bucket with one more entry at its end finds what it found
/// before; where it found nothing, it finds the new entry if the keys are
/// equal.
pub proof fn found_after_put<K: PartialEq, V>(bucket: Seq<(K, V)>, key: K, value: V, k: K)
    ensures
        found(bucket.push((key, value)), k) == if found(bucket, k) is Some {
            found(bucket, k)
        } else if same_symbol(key, k) {
            Some(value)
        } else {
            None
        },
{
    lemma_first_index_push(bucket, (key, value), has_key(k));
    lemma_first_index(bucket, has_key(k));
    let pushed = bucket.push((key, value));
    let i = first_index(bucket, has_key(k));
    if i < bucket.len() {
        assert(pushed[i] == bucket[i]);
    } else if same_symbol(key, k) {
        assert(pushed[i] == (key, value));
    }
}

/// A lookup of `k` in a bucket from which the first entry with a key equal
/// to `key` was taken: what it found before where the two keys are not
/// equal.
pub proof fn found_after_delete<K: PartialEq, V>(bucket: Seq<(K, V)>, key: K, k: K)
    requires
        equivalence::<K>(),
        found(bucket, key) is Some,
        !same_symbol(key, k),
    ensures
        found(bucket.remove(first_index(bucket, has_key(key))), k) == found(bucket, k),
{
    let i = first_index(bucket, has_key(key));
    lemma_first_index(bucket, has_key(key));
    assert(same_symbol(bucket[i].0, key));
    assert(!has_key::<K, V>(k)(bucket[i])) by {
        lemma_same_symbol_class(bucket[i].0, key, k);
    }
    lemma_first_index_remove(bucket, has_key(k), i);
    lemma_first_index(bucket, has_key(k));
}

/// Independence of keys that share a bucket: after two keys that are not
/// equal were put under one hash, each is found with the value it was put
/// with, or, if the bucket held an entry for it before, with the value of
/// the oldest such entry.
pub proof fn colliding_keys_stay_apart<K: PartialEq, V>(
    start: HashMap<K, V>,
    first: HashMap<K, V>,
    second: HashMap<K, V>,
    hash: u64,
    k1: K,
    v1: V,
    k2: K,
    v2: V,
)
    requires
        equivalence::<K>(),
        !same_symbol(k1, k2),
        first.extends(&start, hash, k1, v1),
        second.extends(&first, hash, k2, v2),
    ensures
        found(second.bucket(hash_path(hash)), k1) == if found(start.bucket(hash_path(hash)), k1)
            is Some {
            found(start.bucket(hash_path(hash)), k1)
        } else {
            Some(v1)
        },
        found(second.bucket(hash_path(hash)), k2) == if found(start.bucket(hash_path(hash)), k2)
            is Some {
            found(start.bucket(hash_path(hash)), k2)
        } else {
            Some(v2)
        },
{
    let b = start.bucket(hash_path(hash));
    lemma_same_symbol_reflexive(k1);
    lemma_same_symbol_reflexive(k2);
    lemma_same_symbol_symmetric(k1, k2);
    found_after_put(b, k1, v1, k1);
    found_after_put(b, k1, v1, k2);
    found_after_put(b.push((k1, v1)), k2, v2, k1);
    found_after_put(b.push((k1, v1)), k2, v2, k2);
}

} // verus!
