//! Maps keyed by name.

use vstd::prelude::*;

use crate::names::{
    ascending, lemma_ascending_distinct, lemma_insert_ascending, lemma_remove_ascending, lists,
    locate, Duplicate,
};

verus! {

/// A map from names to values, kept in ascending order of its keys.
#[derive(Debug, PartialEq, Eq)]
pub struct NameMap<V> {
    keys: Vec<String>,
    values: Vec<V>,
}

/// The value that stands at the place of `k`.
spec fn value_of<V: DeepView>(keys: Seq<Seq<char>>, values: Seq<V>, k: Seq<char>) -> V::V {
    values[keys.index_of(k)].deep_view()
}

/// The map that two parallel sequences hold.
spec fn pairing<V: DeepView>(keys: Seq<Seq<char>>, values: Seq<V>) -> Map<Seq<char>, V::V> {
    Map::new(|k: Seq<char>| keys.contains(k), |k: Seq<char>| value_of(keys, values, k))
}

proof fn lemma_index_of(keys: Seq<Seq<char>>, i: int)
    requires
        ascending(keys),
        0 <= i < keys.len(),
    ensures
        keys.index_of(keys[i]) == i,
{
    lemma_ascending_distinct(keys);
    assert(keys.contains(keys[i]));
}

impl<V: DeepView> View for NameMap<V> {
    type V = Map<Seq<char>, V::V>;

    closed spec fn view(&self) -> Map<Seq<char>, V::V> {
        pairing(self.keys.deep_view(), self.values@)
    }
}

impl<V: DeepView> DeepView for NameMap<V> {
    type V = Map<Seq<char>, V::V>;

    open spec fn deep_view(&self) -> Map<Seq<char>, V::V> {
        self.view()
    }
}

impl<V> NameMap<V> {
    #[verifier::type_invariant]
    closed spec fn inv(self) -> bool {
        &&& ascending(self.keys.deep_view())
        &&& self.keys@.len() == self.values@.len()
    }
}

impl<V: DeepView> NameMap<V> {
    /// The keys in ascending order.
    pub closed spec fn key_seq(self) -> Seq<Seq<char>> {
        self.keys.deep_view()
    }

    /// A map has finitely many entries, and each is the view of a value.
    pub proof fn lemma_finite(self)
        ensures
            self@.dom().finite(),
            forall|k: Seq<char>| #[trigger]
                self@.contains_key(k) ==> exists|value: V| self@[k] == #[trigger] value.deep_view(),
    {
        let q = self.keys.deep_view();
        vstd::seq_lib::seq_to_set_is_finite(q);
        assert(self@.dom() =~= q.to_set());
        assert forall|k: Seq<char>| #[trigger] self@.contains_key(k) implies exists|value: V|
            self@[k] == #[trigger] value.deep_view() by {
            assert(self@[k] == self.values@[q.index_of(k)].deep_view());
        }
    }

    /// The empty map.
    pub fn new() -> (r: Self)
        ensures
            r@ == Map::<Seq<char>, V::V>::empty(),
    {
        let r = NameMap { keys: Vec::new(), values: Vec::new() };
        assert(r@ =~= Map::<Seq<char>, V::V>::empty());
        r
    }

    /// The number of entries.
    pub fn len(&self) -> (r: usize)
        ensures
            r == self.key_seq().len(),
            r == self@.dom().len(),
            self@.dom().finite(),
            lists(self.key_seq(), self@.dom()),
    {
        proof {
            use_type_invariant(self);
            let q = self.key_seq();
            assert(q.to_set() =~= self@.dom());
            lemma_ascending_distinct(q);
            q.unique_seq_to_set();
        }
        self.keys.len()
    }

    /// Whether the map has no entry.
    pub fn is_empty(&self) -> (r: bool)
        ensures
            r <==> self@.dom() == Set::<Seq<char>>::empty(),
    {
        let n: usize = self.len();
        proof {
            let q = self.key_seq();
            if n == 0 {
                assert(q.to_set() =~= Set::<Seq<char>>::empty());
            } else {
                assert(q.to_set().contains(q[0]));
            }
        }
        n == 0
    }

    /// The `i`-th key in ascending order.
    pub fn key_at(&self, i: usize) -> (r: &String)
        requires
            i < self.key_seq().len(),
        ensures
            r@ == self.key_seq()[i as int],
            self@.contains_key(r@),
    {
        assert(self.key_seq().contains(self.key_seq()[i as int]));
        &self.keys[i]
    }

    /// The value at the `i`-th key.
    pub fn value_at(&self, i: usize) -> (r: &V)
        requires
            i < self.key_seq().len(),
        ensures
            self@.contains_key(self.key_seq()[i as int]),
            r.deep_view() == self@[self.key_seq()[i as int]],
    {
        proof {
            use_type_invariant(self);
            lemma_index_of(self.key_seq(), i as int);
            assert(self.key_seq().contains(self.key_seq()[i as int]));
        }
        &self.values[i]
    }

    /// The keys, in ascending order.
    pub fn keys(&self) -> (r: Vec<String>)
        ensures
            r.deep_view() == self.key_seq(),
            lists(r.deep_view(), self@.dom()),
    {
        proof {
            use_type_invariant(self);
            assert(self.key_seq().to_set() =~= self@.dom());
        }
        self.keys.duplicate()
    }

    /// The value of `key`, if it has one.
    pub fn get(&self, key: &str) -> (r: Option<&V>)
        ensures
            r is Some <==> self@.contains_key(key@),
            r matches Some(v) ==> v.deep_view() == self@[key@],
    {
        proof {
            use_type_invariant(self);
        }
        let (found, pos) = locate(&self.keys, key);
        if found {
            proof {
                lemma_index_of(self.key_seq(), pos as int);
            }
            Some(&self.values[pos])
        } else {
            None
        }
    }

    /// Whether `key` has a value.
    pub fn contains_key(&self, key: &str) -> (r: bool)
        ensures
            r <==> self@.contains_key(key@),
    {
        self.get(key).is_some()
    }

    /// Gives `key` the value `value`, in place of an earlier one.
    pub fn insert(&mut self, key: String, value: V)
        ensures
            final(self)@ == old(self)@.insert(key@, value.deep_view()),
    {
        proof {
            use_type_invariant(&*self);
        }
        let mut map = NameMap { keys: Vec::new(), values: Vec::new() };
        std::mem::swap(&mut map, self);
        let NameMap { mut keys, mut values } = map;
        let ghost q = keys.deep_view();
        let ghost w = values@;
        let ghost k = key@;
        let ghost v = value.deep_view();
        let (found, pos) = locate(&keys, key.as_str());
        if found {
            values.set(pos, value);
            assert(pairing(q, values@) =~= pairing(q, w).insert(k, v)) by {
                lemma_index_of(q, pos as int);
                assert forall|n: Seq<char>| q.contains(n) && n != k implies value_of(q, values@, n) == value_of(q, w, n) by {
                    assert(q[q.index_of(n)] == n);
                }
            }
        } else {
            proof {
                lemma_insert_ascending(q, pos as int, k);
            }
            keys.insert(pos, key);
            values.insert(pos, value);
            let ghost r = q.insert(pos as int, k);
            assert(keys.deep_view() =~= r);
            assert(pairing(r, values@) =~= pairing(q, w).insert(k, v)) by {
                assert(r[pos as int] == k);
                lemma_index_of(r, pos as int);
                assert forall|n: Seq<char>| r.contains(n) <==> q.contains(n) || n == k by {
                    assert(r.to_set().contains(n) <==> q.to_set().insert(k).contains(n));
                }
                assert forall|n: Seq<char>| q.contains(n) && n != k implies value_of(r, values@, n) == value_of(q, w, n) by {
                    let i = q.index_of(n);
                    assert(q[i] == n);
                    if i < pos {
                        assert(r[i] == n);
                        lemma_index_of(r, i);
                    } else {
                        assert(r[i + 1] == n);
                        lemma_index_of(r, i + 1);
                    }
                }
            }
        }
        *self = NameMap { keys, values };
    }

    /// Takes `key` out; hands back the value that it had.
    pub fn remove(&mut self, key: &str) -> (r: Option<V>)
        ensures
            final(self)@ == old(self)@.remove(key@),
            r is Some <==> old(self)@.contains_key(key@),
            r matches Some(v) ==> v.deep_view() == old(self)@[key@],
    {
        proof {
            use_type_invariant(&*self);
        }
        let mut map = NameMap { keys: Vec::new(), values: Vec::new() };
        std::mem::swap(&mut map, self);
        let NameMap { mut keys, mut values } = map;
        let ghost q = keys.deep_view();
        let ghost w = values@;
        let ghost k = key@;
        let (found, pos) = locate(&keys, key);
        if found {
            proof {
                lemma_remove_ascending(q, pos as int);
                lemma_index_of(q, pos as int);
            }
            keys.remove(pos);
            let value = values.remove(pos);
            let ghost r = q.remove(pos as int);
            assert(keys.deep_view() =~= r);
            assert(pairing(r, values@) =~= pairing(q, w).remove(k)) by {
                assert forall|n: Seq<char>| r.contains(n) <==> q.contains(n) && n != k by {
                    assert(r.to_set().contains(n) <==> q.to_set().remove(k).contains(n));
                }
                assert forall|n: Seq<char>| q.contains(n) && n != k implies value_of(r, values@, n) == value_of(q, w, n) by {
                    let i = q.index_of(n);
                    assert(q[i] == n);
                    if i < pos {
                        assert(r[i] == n);
                        lemma_index_of(r, i);
                    } else {
                        assert(r[i - 1] == n);
                        lemma_index_of(r, i - 1);
                    }
                }
            }
            *self = NameMap { keys, values };
            Some(value)
        } else {
            assert(pairing(q, w).remove(k) =~= pairing(q, w));
            *self = NameMap { keys, values };
            None
        }
    }
}

impl<V: Duplicate> Duplicate for NameMap<V> {
    fn duplicate(&self) -> (r: Self) {
        proof {
            use_type_invariant(self);
        }
        let keys = self.keys.duplicate();
        let values = self.values.duplicate();
        assert(keys.deep_view().len() == keys@.len());
        assert(values.deep_view().len() == self.values.deep_view().len());
        let r = NameMap { keys, values };
        proof {
            assert forall|k: Seq<char>| r.keys.deep_view().contains(k) implies value_of(r.keys.deep_view(), r.values@, k)
                == value_of(self.keys.deep_view(), self.values@, k) by {
                let i = self.keys.deep_view().index_of(k);
                assert(r.values.deep_view()[i] == self.values.deep_view()[i]);
            }
            assert(r@ =~= self@);
        }
        r
    }
}

impl<V: Duplicate> Clone for NameMap<V> {
    fn clone(&self) -> (r: Self)
        ensures
            r@ == self@,
    {
        self.duplicate()
    }
}

} // verus!
