//! A map whose keys are held in order.
use vstd::prelude::*;
use vstd::seq_lib::seq_to_set_is_finite;

use crate::order::{in_order, lemma_in_order, sorted, strict_order, Place, Ranked};

verus! {

/// A map from keys to values that can be walked in the order of its keys.
///
/// The keys stand in a sorted vector, and the value of each at the same index in another.
pub struct OrderedMap<K: Ranked, V> {
    keys: Vec<K>,
    values: Vec<V>,
}

/// What the keys in a vector stand for.
pub open spec fn views<K: View>(keys: Seq<K>) -> Seq<K::V> {
    Seq::new(keys.len(), |i: int| keys[i]@)
}

/// The map that pairs each key with the value at its index.
pub open spec fn zipped<T, V>(keys: Seq<T>, values: Seq<V>) -> Map<T, V> {
    Map::new(|k: T| keys.contains(k), |k: T| values[keys.index_of(k)])
}

proof fn lemma_index_of<T>(s: Seq<T>, lt: spec_fn(T, T) -> bool, i: int)
    requires
        strict_order(lt),
        sorted(s, lt),
        0 <= i < s.len(),
    ensures
        s.index_of(s[i]) == i,
        s.contains(s[i]),
{
    let j = s.index_of(s[i]);
    assert(s.contains(s[i]));
    assert(0 <= j < s.len() && s[j] == s[i]);
    if j < i {
        assert(lt(s[j], s[i]));
    } else if i < j {
        assert(lt(s[i], s[j]));
    }
}

proof fn lemma_zipped<T, V>(keys: Seq<T>, values: Seq<V>, lt: spec_fn(T, T) -> bool)
    requires
        strict_order(lt),
        sorted(keys, lt),
        keys.len() == values.len(),
    ensures
        forall|i: int| 0 <= i < keys.len() ==> zipped(keys, values).dom().contains(#[trigger] keys[i]),
        forall|i: int| 0 <= i < keys.len() ==> zipped(keys, values)[#[trigger] keys[i]] == values[i],
        zipped(keys, values).dom() == keys.to_set(),
        in_order(zipped(keys, values).dom(), lt) == keys,
{
    assert forall|i: int| 0 <= i < keys.len() implies zipped(keys, values)[#[trigger] keys[i]]
        == values[i] && zipped(keys, values).dom().contains(keys[i]) by {
        lemma_index_of(keys, lt, i);
    }
    assert(zipped(keys, values).dom() =~= keys.to_set());
    lemma_in_order(keys, lt);
}

impl<K: Ranked, V> OrderedMap<K, V> {
    #[verifier::type_invariant]
    spec fn in_step(self) -> bool {
        &&& self.keys@.len() == self.values@.len()
        &&& sorted(views(self.keys@), K::order())
    }
}

impl<K: Ranked, V> View for OrderedMap<K, V> {
    type V = Map<K::V, V>;

    closed spec fn view(&self) -> Map<K::V, V> {
        zipped(views(self.keys@), self.values@)
    }
}

impl<K: Ranked, V> OrderedMap<K, V> {
    /// What the keys stand for, in order.
    pub open spec fn in_key_order(self) -> Seq<K::V> {
        in_order(self@.dom(), K::order())
    }

    /// A map holds finitely many entries.
    pub proof fn law_finite(self)
        ensures
            self@.dom().finite(),
    {
        let keys = views(self.keys@);
        assert(self@.dom() =~= keys.to_set());
        seq_to_set_is_finite(keys);
    }

    /// A map without entries.
    pub fn new() -> (r: Self)
        ensures
            r@ == Map::<K::V, V>::empty(),
    {
        let r = OrderedMap { keys: Vec::new(), values: Vec::new() };
        assert(r@ =~= Map::<K::V, V>::empty());
        r
    }

    /// The number of entries.
    pub fn len(&self) -> (n: usize)
        ensures
            n == self.in_key_order().len(),
            sorted(self.in_key_order(), K::order()),
            self.in_key_order().to_set() == self@.dom(),
    {
        proof {
            use_type_invariant(self);
            K::lemma_order_strict();
            lemma_zipped(views(self.keys@), self.values@, K::order());
        }
        self.keys.len()
    }

    /// The entry at an index in the order of the keys.
    pub fn entry(&self, i: usize) -> (r: (&K, &V))
        requires
            i < self.in_key_order().len(),
        ensures
            r.0@ == self.in_key_order()[i as int],
            self@.dom().contains(r.0@),
            *r.1 == self@[r.0@],
    {
        proof {
            use_type_invariant(self);
            K::lemma_order_strict();
            lemma_zipped(views(self.keys@), self.values@, K::order());
            assert(views(self.keys@)[i as int] == self.keys@[i as int]@);
        }
        (&self.keys[i], &self.values[i])
    }

    /// The first index whose key does not come before `key`, and whether `key` stands there.
    fn slot(&self, key: &K) -> (r: (usize, bool))
        ensures
            r.0 <= self.keys@.len(),
            forall|j: int|
                0 <= j < r.0 ==> K::order()(#[trigger] views(self.keys@)[j], key@),
            r.1 ==> r.0 < self.keys@.len() && views(self.keys@)[r.0 as int] == key@,
            !r.1 ==> forall|j: int|
                r.0 <= j < self.keys@.len() ==> K::order()(key@, #[trigger] views(self.keys@)[j]),
    {
        proof {
            use_type_invariant(self);
            K::lemma_order_strict();
        }
        let mut low: usize = 0;
        let mut high: usize = self.keys.len();
        while low < high
            invariant
                low <= high <= self.keys@.len(),
                strict_order(K::order()),
                sorted(views(self.keys@), K::order()),
                forall|j: int| 0 <= j < low ==> K::order()(#[trigger] views(self.keys@)[j], key@),
                forall|j: int|
                    high <= j < self.keys@.len() ==> K::order()(
                        key@,
                        #[trigger] views(self.keys@)[j],
                    ),
            decreases high - low,
        {
            let mid = low + (high - low) / 2;
            assert(views(self.keys@)[mid as int] == self.keys@[mid as int]@);
            match self.keys[mid].place(key) {
                Place::Before => {
                    assert forall|j: int| 0 <= j < mid + 1 implies K::order()(
                        #[trigger] views(self.keys@)[j],
                        key@,
                    ) by {
                        if j < mid {
                            assert(K::order()(views(self.keys@)[j], views(self.keys@)[mid as int]));
                        }
                    }
                    low = mid + 1;
                },
                Place::Same => {
                    return (mid, true);
                },
                Place::After => {
                    assert forall|j: int| mid <= j < self.keys@.len() implies K::order()(
                        key@,
                        #[trigger] views(self.keys@)[j],
                    ) by {
                        if mid < j {
                            assert(K::order()(views(self.keys@)[mid as int], views(self.keys@)[j]));
                        }
                    }
                    high = mid;
                },
            }
        }
        (low, false)
    }

    /// The value under a key.
    pub fn get(&self, key: &K) -> (r: Option<&V>)
        ensures
            r == (if self@.dom().contains(key@) {
                Some(&self@[key@])
            } else {
                None
            }),
    {
        let (i, found) = self.slot(key);
        proof {
            use_type_invariant(self);
            K::lemma_order_strict();
            lemma_zipped(views(self.keys@), self.values@, K::order());
            if !found && views(self.keys@).contains(key@) {
                let j = views(self.keys@).index_of(key@);
                assert(views(self.keys@)[j] == key@);
                assert(K::order()(key@, key@));
            }
        }
        if found {
            Some(&self.values[i])
        } else {
            None
        }
    }

    /// Puts a value under a key, in place of the one that stood there.
    pub fn insert(&mut self, key: K, value: V)
        ensures
            final(self)@ == old(self)@.insert(key@, value),
    {
        proof {
            use_type_invariant(&*self);
        }
        let ghost before = self@;
        let (i, found) = self.slot(&key);
        let mut whole: OrderedMap<K, V> = OrderedMap::new();
        std::mem::swap(&mut whole, self);
        let OrderedMap { mut keys, mut values } = whole;
        let ghost names = views(keys@);
        let ghost held = values@;
        proof {
            K::lemma_order_strict();
            lemma_zipped(names, held, K::order());
        }
        if found {
            values.set(i, value);
            proof {
                lemma_zipped(names, values@, K::order());
                assert(zipped(names, values@) =~= before.insert(key@, value)) by {
                    assert forall|k: K::V| names.contains(k) implies zipped(names, values@)[k]
                        == before.insert(key@, value)[k] by {
                        let j = names.index_of(k);
                        assert(names[j] == k);
                        if j != i {
                            assert(K::order()(names[j], names[i as int]) || K::order()(
                                names[i as int],
                                names[j],
                            ));
                        }
                    }
                }
            }
        } else {
            keys.insert(i, key);
            values.insert(i, value);
            proof {
                let more = views(keys@);
                assert(more =~= names.insert(i as int, key@));
                assert forall|a: int, b: int| 0 <= a < b < more.len() implies K::order()(
                    #[trigger] more[a],
                    #[trigger] more[b],
                ) by {
                    let a0 = if a < i { a } else { a - 1 };
                    let b0 = if b < i { b } else { b - 1 };
                    if a != i {
                        assert(more[a] == names[a0]);
                    }
                    if b != i {
                        assert(more[b] == names[b0]);
                    }
                }
                lemma_zipped(more, values@, K::order());
                assert(zipped(more, values@) =~= before.insert(key@, value)) by {
                    assert(more[i as int] == key@);
                    assert forall|k: K::V| more.contains(k) <==> before.insert(
                        key@,
                        value,
                    ).dom().contains(k) by {
                        if names.contains(k) {
                            let j = names.index_of(k);
                            assert(more[if j < i { j } else { j + 1 }] == k);
                        }
                        if more.contains(k) && k != key@ {
                            let j = more.index_of(k);
                            assert(names[if j < i { j } else { j - 1 }] == k);
                        }
                    }
                    assert forall|k: K::V| more.contains(k) implies zipped(more, values@)[k]
                        == before.insert(key@, value)[k] by {
                        let j = more.index_of(k);
                        assert(more[j] == k);
                        if j != i {
                            let j0 = if j < i { j } else { j - 1 };
                            assert(names[j0] == k);
                            assert(before[names[j0]] == held[j0]);
                            assert(values@[j] == held[j0]);
                            assert(k != key@);
                        }
                    }
                }
            }
        }
        *self = OrderedMap { keys, values };
    }

    /// Takes out the value under a key.
    pub fn take(&mut self, key: &K) -> (r: Option<V>)
        ensures
            r == (if old(self)@.dom().contains(key@) {
                Some(old(self)@[key@])
            } else {
                None
            }),
            final(self)@ == old(self)@.remove(key@),
    {
        proof {
            use_type_invariant(&*self);
        }
        let ghost before = self@;
        let (i, found) = self.slot(key);
        let mut whole: OrderedMap<K, V> = OrderedMap::new();
        std::mem::swap(&mut whole, self);
        let OrderedMap { mut keys, mut values } = whole;
        let ghost names = views(keys@);
        let ghost held = values@;
        proof {
            K::lemma_order_strict();
            lemma_zipped(names, held, K::order());
        }
        let taken = if found {
            let _ = keys.remove(i);
            let value = values.remove(i);
            proof {
                let fewer = views(keys@);
                assert(fewer =~= names.remove(i as int));
                assert forall|a: int, b: int| 0 <= a < b < fewer.len() implies K::order()(
                    #[trigger] fewer[a],
                    #[trigger] fewer[b],
                ) by {
                    assert(fewer[a] == names[if a < i { a } else { a + 1 }]);
                    assert(fewer[b] == names[if b < i { b } else { b + 1 }]);
                }
                lemma_zipped(fewer, values@, K::order());
                assert(zipped(fewer, values@) =~= before.remove(key@)) by {
                    assert forall|k: K::V| fewer.contains(k) <==> before.remove(
                        key@,
                    ).dom().contains(k) by {
                        if names.contains(k) && k != key@ {
                            let j = names.index_of(k);
                            assert(names[j] == k);
                            assert(fewer[if j < i { j } else { j - 1 }] == k);
                        }
                        if fewer.contains(k) {
                            let j = fewer.index_of(k);
                            let j0 = if j < i { j } else { j + 1 };
                            assert(names[j0] == k);
                            assert(K::order()(names[j0], names[i as int]) || K::order()(
                                names[i as int],
                                names[j0],
                            ));
                        }
                    }
                    assert forall|k: K::V| fewer.contains(k) implies zipped(fewer, values@)[k]
                        == before.remove(key@)[k] by {
                        let j = fewer.index_of(k);
                        assert(fewer[j] == k);
                        let j0 = if j < i { j } else { j + 1 };
                        assert(names[j0] == k);
                        assert(before[names[j0]] == held[j0]);
                        assert(values@[j] == held[j0]);
                    }
                }
            }
            Some(value)
        } else {
            proof {
                if names.contains(key@) {
                    let j = names.index_of(key@);
                    assert(names[j] == key@);
                    assert(K::order()(key@, key@));
                }
                assert(before =~= before.remove(key@));
            }
            None
        };
        *self = OrderedMap { keys, values };
        taken
    }

    /// The keys and the values, in the order of the keys.
    pub fn into_parts(self) -> (r: (Vec<K>, Vec<V>))
        ensures
            views(r.0@) == self.in_key_order(),
            r.1@.len() == r.0@.len(),
            forall|i: int|
                #![trigger r.1@[i]]
                0 <= i < r.1@.len() ==> r.1@[i] == self@[self.in_key_order()[i]],
            sorted(self.in_key_order(), K::order()),
            self.in_key_order().to_set() == self@.dom(),
    {
        proof {
            use_type_invariant(&self);
            K::lemma_order_strict();
            lemma_zipped(views(self.keys@), self.values@, K::order());
        }
        let OrderedMap { keys, values } = self;
        proof {
            assert forall|i: int| #![trigger values@[i]] 0 <= i < values@.len() implies values@[i]
                == self@[self.in_key_order()[i]] by {
                assert(views(keys@)[i] == self.in_key_order()[i]);
            }
        }
        (keys, values)
    }
}

/// The list under a key, empty where there is none.
pub open spec fn list_under<T, U>(m: Map<T, Vec<U>>, key: T) -> Seq<U> {
    if m.dom().contains(key) {
        m[key]@
    } else {
        Seq::empty()
    }
}

impl<K: Ranked, T> OrderedMap<K, Vec<T>> {
    /// Puts an item at the end of the list under a key.
    pub fn push_under(&mut self, key: K, item: T)
        ensures
            final(self)@.dom() == old(self)@.dom().insert(key@),
            forall|k: K::V| #[trigger]
                list_under(final(self)@, k) == if k == key@ {
                    list_under(old(self)@, k).push(item)
                } else {
                    list_under(old(self)@, k)
                },
    {
        let mut list = match self.take(&key) {
            Some(list) => list,
            None => Vec::new(),
        };
        list.push(item);
        self.insert(key, list);
        assert(self@.dom() =~= old(self)@.dom().insert(key@));
    }
}

} // verus!
