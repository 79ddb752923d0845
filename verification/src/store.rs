//! The in-memory key/value store: a mapping from byte-string key to
//! byte-string value with per-key last-writer-wins semantics.
//!
//! The store is modelled as a `Map<Seq<u8>, Seq<u8>>`; internally it keeps an
//! association list whose keys are pairwise distinct.
use vstd::prelude::*;

use crate::bytes_helper::{bytes_eq, to_vec};

verus! {

/// The views of a sequence of key/value entry pairs.
pub open spec fn kv_views(es: Seq<(Vec<u8>, Vec<u8>)>) -> Seq<(Seq<u8>, Seq<u8>)> {
    es.map_values(|p: (Vec<u8>, Vec<u8>)| (p.0@, p.1@))
}

/// The mapping an entry sequence denotes; a later entry for the same key wins.
pub open spec fn map_of(es: Seq<(Seq<u8>, Seq<u8>)>) -> Map<Seq<u8>, Seq<u8>>
    decreases es.len(),
{
    if es.len() == 0 {
        Map::empty()
    } else {
        map_of(es.drop_last()).insert(es.last().0, es.last().1)
    }
}

/// All keys of the entry sequence are pairwise distinct.
pub open spec fn unique_keys(es: Seq<(Seq<u8>, Seq<u8>)>) -> bool {
    forall|i: int, j: int| 0 <= i < j < es.len() ==> es[i].0 != es[j].0
}

/// Appending an entry inserts its pair into the denoted mapping.
pub proof fn lemma_map_of_push(es: Seq<(Seq<u8>, Seq<u8>)>, k: Seq<u8>, v: Seq<u8>)
    ensures
        map_of(es.push((k, v))) == map_of(es).insert(k, v),
{
    assert(es.push((k, v)).drop_last() =~= es);
}

/// With distinct keys, the mapping holds exactly each entry's value.
pub proof fn lemma_map_of_index(es: Seq<(Seq<u8>, Seq<u8>)>, i: int)
    requires
        unique_keys(es),
        0 <= i < es.len(),
    ensures
        map_of(es).contains_key(es[i].0),
        map_of(es)[es[i].0] == es[i].1,
    decreases es.len(),
{
    if i == es.len() - 1 {
    } else {
        assert(es.drop_last()[i] == es[i]);
        lemma_map_of_index(es.drop_last(), i);
        assert(es.last().0 != es[i].0);
    }
}

/// A key that no entry holds is not in the mapping.
pub proof fn lemma_map_of_absent(es: Seq<(Seq<u8>, Seq<u8>)>, k: Seq<u8>)
    requires
        forall|j: int| 0 <= j < es.len() ==> es[j].0 != k,
    ensures
        !map_of(es).contains_key(k),
    decreases es.len(),
{
    if es.len() > 0 {
        assert(forall|j: int|
            0 <= j < es.len() - 1 ==> es.drop_last()[j].0 != k);
        lemma_map_of_absent(es.drop_last(), k);
    }
}

/// Overwriting the entry that holds key `k` updates the mapping at `k`.
pub proof fn lemma_map_of_update(es: Seq<(Seq<u8>, Seq<u8>)>, i: int, k: Seq<u8>, v: Seq<u8>)
    requires
        unique_keys(es),
        0 <= i < es.len(),
        es[i].0 == k,
    ensures
        map_of(es.update(i, (k, v))) == map_of(es).insert(k, v),
    decreases es.len(),
{
    let es2 = es.update(i, (k, v));
    if i == es.len() - 1 {
        assert(es2.drop_last() =~= es.drop_last());
        assert(es2.last() == (k, v));
        assert(map_of(es.drop_last()).insert(k, es.last().1).insert(k, v) =~= map_of(
            es.drop_last(),
        ).insert(k, v));
    } else {
        assert(es2.drop_last() =~= es.drop_last().update(i, (k, v)));
        assert(es2.last() == es.last());
        assert(es.drop_last()[i] == es[i]);
        lemma_map_of_update(es.drop_last(), i, k, v);
        assert(es.last().0 != k);
        assert(map_of(es.drop_last()).insert(k, v).insert(es.last().0, es.last().1) =~= map_of(
            es.drop_last(),
        ).insert(es.last().0, es.last().1).insert(k, v));
    }
}

/// Removing the entry that holds key `k` removes `k` from the mapping.
pub proof fn lemma_map_of_remove(es: Seq<(Seq<u8>, Seq<u8>)>, i: int)
    requires
        unique_keys(es),
        0 <= i < es.len(),
    ensures
        map_of(es.remove(i)) == map_of(es).remove(es[i].0),
    decreases es.len(),
{
    let k = es[i].0;
    if i == es.len() - 1 {
        assert(es.remove(i) =~= es.drop_last());
        assert(forall|j: int| 0 <= j < es.len() - 1 ==> es.drop_last()[j].0 != k);
        lemma_map_of_absent(es.drop_last(), k);
        assert(map_of(es.drop_last()).insert(k, es.last().1).remove(k) =~= map_of(es.drop_last()));
    } else {
        assert(es.remove(i).drop_last() =~= es.drop_last().remove(i));
        assert(es.remove(i).last() == es.last());
        assert(es.drop_last()[i] == es[i]);
        lemma_map_of_remove(es.drop_last(), i);
        assert(es.last().0 != k);
        assert(map_of(es.drop_last()).remove(k).insert(es.last().0, es.last().1) =~= map_of(
            es.drop_last(),
        ).insert(es.last().0, es.last().1).remove(k));
    }
}

/// The shared in-memory key/value store.
#[derive(Debug)]
pub struct Store {
    entries: Vec<(Vec<u8>, Vec<u8>)>,
}

impl View for Store {
    type V = Map<Seq<u8>, Seq<u8>>;

    closed spec fn view(&self) -> Map<Seq<u8>, Seq<u8>> {
        map_of(self.kvs())
    }
}

impl Store {
    /// The store's entries as abstract key/value pairs, in storage order.
    pub closed spec fn kvs(&self) -> Seq<(Seq<u8>, Seq<u8>)> {
        kv_views(self.entries@)
    }

    /// Internal invariant: no key occurs twice.
    pub closed spec fn wf(&self) -> bool {
        unique_keys(self.kvs())
    }

    /// The mapping the store denotes is exactly the mapping of its entries.
    pub proof fn lemma_view_is_map_of_kvs(&self)
        ensures
            self@ == map_of(self.kvs()),
    {
    }

    /// An empty store.
    pub fn new() -> (r: Store)
        ensures
            r.wf(),
            r@ == Map::<Seq<u8>, Seq<u8>>::empty(),
            r.kvs() == Seq::<(Seq<u8>, Seq<u8>)>::empty(),
    {
        let s = Store { entries: Vec::new() };
        proof {
            assert(s.kvs() =~= Seq::<(Seq<u8>, Seq<u8>)>::empty());
        }
        s
    }

    /// Index of the entry holding `key`, if any.
    fn find(&self, key: &[u8]) -> (r: Option<usize>)
        ensures
            match r {
                Some(i) => i < self.kvs().len() && self.kvs()[i as int].0 == key@,
                None => forall|j: int| 0 <= j < self.kvs().len() ==> self.kvs()[j].0 != key@,
            },
    {
        let mut i: usize = 0;
        while i < self.entries.len()
            invariant
                i <= self.entries.len(),
                forall|j: int| 0 <= j < i ==> self.kvs()[j].0 != key@,
            decreases self.entries.len() - i,
        {
            if bytes_eq(self.entries[i].0.as_slice(), key) {
                return Some(i);
            }
            i += 1;
        }
        None
    }

    /// Looks the key up; `None` means the key is absent.
    pub fn get(&self, key: &[u8]) -> (r: Option<&Vec<u8>>)
        requires
            self.wf(),
        ensures
            match r {
                Some(v) => self@.contains_key(key@) && v@ == self@[key@],
                None => !self@.contains_key(key@),
            },
    {
        match self.find(key) {
            Some(i) => {
                proof {
                    lemma_map_of_index(self.kvs(), i as int);
                }
                Some(&self.entries[i].1)
            },
            None => {
                proof {
                    lemma_map_of_absent(self.kvs(), key@);
                }
                None
            },
        }
    }

    /// Binds `key` to `value`, overwriting any earlier binding.
    pub fn set(&mut self, key: &[u8], value: &[u8])
        requires
            old(self).wf(),
        ensures
            final(self).wf(),
            final(self)@ == old(self)@.insert(key@, value@),
    {
        let kv = to_vec(key);
        let vv = to_vec(value);
        match self.find(key) {
            Some(i) => {
                proof {
                    lemma_map_of_update(self.kvs(), i as int, key@, value@);
                }
                self.entries[i] = (kv, vv);
                proof {
                    assert(self.kvs() =~= old(self).kvs().update(i as int, (key@, value@)));
                }
            },
            None => {
                proof {
                    lemma_map_of_push(self.kvs(), key@, value@);
                }
                self.entries.push((kv, vv));
                proof {
                    assert(self.kvs() =~= old(self).kvs().push((key@, value@)));
                }
            },
        }
    }

    /// Removes `key`; returns whether a binding was present.
    pub fn delete(&mut self, key: &[u8]) -> (r: bool)
        requires
            old(self).wf(),
        ensures
            final(self).wf(),
            final(self)@ == old(self)@.remove(key@),
            r == old(self)@.contains_key(key@),
    {
        match self.find(key) {
            Some(i) => {
                proof {
                    lemma_map_of_index(self.kvs(), i as int);
                    lemma_map_of_remove(self.kvs(), i as int);
                }
                self.entries.remove(i);
                proof {
                    assert(self.kvs() =~= old(self).kvs().remove(i as int));
                }
                true
            },
            None => {
                proof {
                    lemma_map_of_absent(self.kvs(), key@);
                    assert(self@.remove(key@) =~= self@);
                }
                false
            },
        }
    }

    /// Number of bindings the store holds.
    pub fn entry_count(&self) -> (r: usize)
        ensures
            r == self.kvs().len(),
    {
        self.entries.len()
    }

    /// The key of the entry at position `i`, in storage order.
    pub fn key_at(&self, i: usize) -> (r: &Vec<u8>)
        requires
            i < self.kvs().len(),
        ensures
            r@ == self.kvs()[i as int].0,
    {
        &self.entries[i].0
    }

    /// The value of the entry at position `i`, in storage order.
    pub fn val_at(&self, i: usize) -> (r: &Vec<u8>)
        requires
            i < self.kvs().len(),
        ensures
            r@ == self.kvs()[i as int].1,
    {
        &self.entries[i].1
    }
}

} // verus!
