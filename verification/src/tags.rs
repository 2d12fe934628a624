//! Sets of tags.
use vstd::prelude::*;

use crate::order::{
    in_order, lemma_in_order_of_finite, lemma_text_order_strict, sorted, text_order,
};
use crate::ordered::OrderedMap;
use crate::text::texts;

verus! {

/// A set of texts that is listed in order.
pub struct TagSet {
    names: OrderedMap<String, ()>,
}

impl View for TagSet {
    type V = Set<Seq<char>>;

    closed spec fn view(&self) -> Set<Seq<char>> {
        self.names@.dom()
    }
}

/// The elements of a set of texts, in order.
pub open spec fn listed(s: Set<Seq<char>>) -> Seq<Seq<char>> {
    in_order(s, text_order())
}

/// The elements of a finite set of texts are listed sorted, each of them and nothing else.
pub proof fn law_listed(s: Set<Seq<char>>)
    requires
        s.finite(),
    ensures
        sorted(listed(s), text_order()),
        listed(s).to_set() == s,
{
    lemma_text_order_strict();
    lemma_in_order_of_finite(s, text_order());
}

impl TagSet {
    /// A set holds finitely many texts.
    pub proof fn law_finite(self)
        ensures
            self@.finite(),
    {
        self.names.law_finite();
    }

    /// The empty set.
    pub fn new() -> (r: Self)
        ensures
            r@ == Set::<Seq<char>>::empty(),
    {
        let r = TagSet { names: OrderedMap::new() };
        assert(r@ =~= Set::<Seq<char>>::empty());
        r
    }

    /// Adds a text.
    pub fn insert(&mut self, name: String)
        ensures
            final(self)@ == old(self)@.insert(name@),
    {
        self.names.insert(name, ());
        assert(self@ =~= old(self)@.insert(name@));
    }

    /// Removes a text.
    pub fn remove(&mut self, name: &String)
        ensures
            final(self)@ == old(self)@.remove(name@),
    {
        let _ = self.names.take(name);
        assert(self@ =~= old(self)@.remove(name@));
    }

    /// Whether a text is in the set.
    pub fn contains(&self, name: &String) -> (r: bool)
        ensures
            r == self@.contains(name@),
    {
        self.names.get(name).is_some()
    }

    /// Whether the set is empty.
    pub fn is_empty(&self) -> (r: bool)
        ensures
            r == (self@ == Set::<Seq<char>>::empty()),
            r == (listed(self@).len() == 0),
    {
        let n = self.names.len();
        proof {
            let q = self.names.in_key_order();
            if n == 0 {
                assert(q.to_set() =~= Set::<Seq<char>>::empty());
            } else {
                assert(q.to_set().contains(q[0]));
            }
        }
        n == 0
    }

    /// The texts, in order.
    pub fn names(&self) -> (r: Vec<String>)
        ensures
            texts(r@) == listed(self@),
            sorted(texts(r@), text_order()),
            texts(r@).to_set() == self@,
    {
        let n = self.names.len();
        let mut r: Vec<String> = Vec::new();
        let mut i: usize = 0;
        while i < n
            invariant
                i <= n,
                n == listed(self@).len(),
                listed(self@) == self.names.in_key_order(),
                texts(r@) =~= listed(self@).take(i as int),
            decreases n - i,
        {
            let ghost before = texts(r@);
            let (name, _) = self.names.entry(i);
            r.push(name.clone());
            assert(texts(r@) =~= before.push(name@));
            assert(listed(self@).take(i + 1) =~= listed(self@).take(i as int).push(name@));
            i += 1;
        }
        assert(listed(self@).take(n as int) =~= listed(self@));
        r
    }

    /// Adds every text of another set.
    pub fn extend(&mut self, other: &TagSet)
        ensures
            final(self)@ == old(self)@.union(other@),
    {
        let more = other.names();
        let mut i: usize = 0;
        assert(self@ =~= old(self)@.union(texts(more@).take(0).to_set()));
        while i < more.len()
            invariant
                i <= more@.len(),
                self@ == old(self)@.union(texts(more@).take(i as int).to_set()),
            decreases more@.len() - i,
        {
            let ghost before = self@;
            self.insert(more[i].clone());
            proof {
                let t = texts(more@);
                lemma_take_to_set(t, i as int);
                assert(self@ =~= old(self)@.union(t.take(i + 1).to_set()));
            }
            i += 1;
        }
        assert(texts(more@).take(i as int) =~= texts(more@));
    }

    /// The same set again.
    pub fn duplicate(&self) -> (r: Self)
        ensures
            r@ == self@,
    {
        let mut r = TagSet::new();
        r.extend(self);
        assert(r@ =~= self@);
        r
    }
}

/// One more element of a sequence is one more element of its set.
pub proof fn lemma_take_to_set<T>(s: Seq<T>, i: int)
    requires
        0 <= i < s.len(),
    ensures
        s.take(i + 1).to_set() == s.take(i).to_set().insert(s[i]),
{
    let a = s.take(i + 1);
    let b = s.take(i);
    assert(a =~= b.push(s[i]));
    assert forall|x: T| a.to_set().contains(x) <==> b.to_set().insert(s[i]).contains(x) by {
        if a.contains(x) {
            let j = a.index_of(x);
            assert(a[j] == x);
            if j < i {
                assert(b[j] == x);
            }
        }
        if b.contains(x) {
            let j = b.index_of(x);
            assert(a[j] == x);
        }
        assert(a[i] == s[i]);
    }
    assert(a.to_set() =~= b.to_set().insert(s[i]));
}

} // verus!
