use rustc_hash::FxHashMap;
use vstd::prelude::*;

use crate::fxmap::{fx_get, fx_insert, fx_remove};

verus! {

/// The stable index of an input kind within its storage group.
#[derive(Debug, Clone, Copy, PartialEq, Eq, Structural, PartialOrd, Ord, Hash)]
pub struct InputIndex(pub u16);

/// The identity of one key within one input table, minted the first time the key is set.
#[derive(Debug, Clone, Copy, PartialEq, Eq, Structural, PartialOrd, Ord, Hash)]
pub struct KeyIndex(pub u32);

/// One input table: keys are given stable key indices, and each key index holds a value.
pub struct InputStorage<V> {
    index_map: FxHashMap<u64, KeyIndex>,
    value_map: FxHashMap<u64, V>,
    key_index: u32,
}

impl<V: Clone> InputStorage<V> {
    /// The key index assigned to each key that is present.
    pub closed spec fn indices(&self) -> Map<u64, KeyIndex> {
        self.index_map@
    }

    /// The value of each key that is present.
    pub closed spec fn view(&self) -> Map<u64, V> {
        Map::new(
            |k: u64| self.index_map@.contains_key(k),
            |k: u64| self.value_map@[self.index_map@[k].0 as u64],
        )
    }

    /// How many key indices have been minted so far; the next one is this number.
    pub closed spec fn minted(&self) -> nat {
        self.key_index as nat
    }

    /// Every key index in use was minted, holds a value, and belongs to one key only; every
    /// key index that holds a value is in use.
    pub closed spec fn wf(&self) -> bool {
        &&& forall|i: u64| #[trigger]
            self.value_map@.contains_key(i) ==> exists|k: u64|
                #[trigger] self.index_map@.contains_key(k) && self.index_map@[k].0 as u64 == i
        &&& forall|k: u64| #[trigger]
            self.index_map@.contains_key(k) ==> {
                &&& self.index_map@[k].0 < self.key_index
                &&& self.value_map@.contains_key(self.index_map@[k].0 as u64)
            }
        &&& forall|k1: u64, k2: u64|
            #[trigger] self.index_map@.contains_key(k1) && #[trigger] self.index_map@.contains_key(k2)
                && k1 != k2 ==> self.index_map@[k1] != self.index_map@[k2]
    }

    pub fn new() -> (r: Self)
        ensures
            r.wf(),
            r.view() == Map::<u64, V>::empty(),
            r.indices() == Map::<u64, KeyIndex>::empty(),
            r.minted() == 0,
    {
        let r = InputStorage { index_map: FxHashMap::default(), value_map: FxHashMap::default(), key_index: 0 };
        assert(r.view() =~= Map::<u64, V>::empty());
        r
    }

    /// The value of `key` (a clone) and its key index, if `key` is present.
    pub fn get(&self, key: &u64) -> (r: Option<(V, KeyIndex)>)
        requires
            self.wf(),
        ensures
            match r {
                Some((v, i)) => {
                    &&& self.view().contains_key(*key)
                    &&& cloned(self.view()[*key], v)
                    &&& i == self.indices()[*key]
                },
                None => !self.view().contains_key(*key),
            },
    {
        match fx_get(&self.index_map, *key) {
            Some(index) => {
                let index = *index;
                let value = fx_get(&self.value_map, index.0 as u64).unwrap().clone();
                Some((value, index))
            },
            None => None,
        }
    }

    /// Sets `key` to `value`; a key seen for the first time gets the next key index.
    pub fn set(&mut self, key: u64, value: V) -> (r: KeyIndex)
        requires
            old(self).wf(),
            old(self).indices().contains_key(key) || old(self).minted() < u32::MAX,
        ensures
            final(self).wf(),
            final(self).view() == old(self).view().insert(key, value),
            final(self).indices() == old(self).indices().insert(key, r),
            old(self).indices().contains_key(key) ==> {
                &&& r == old(self).indices()[key]
                &&& final(self).minted() == old(self).minted()
            },
            !old(self).indices().contains_key(key) ==> {
                &&& r.0 == old(self).minted()
                &&& final(self).minted() == old(self).minted() + 1
            },
    {
        let index = match fx_get(&self.index_map, key) {
            Some(index) => *index,
            None => {
                let fresh = KeyIndex(self.key_index);
                self.key_index = self.key_index + 1;
                fx_insert(&mut self.index_map, key, fresh);
                fresh
            },
        };
        fx_insert(&mut self.value_map, index.0 as u64, value);
        assert forall|i: u64| #[trigger] self.value_map@.contains_key(i) implies exists|k: u64|
            #[trigger] self.index_map@.contains_key(k) && self.index_map@[k].0 as u64 == i by {
            if i == index.0 as u64 {
                assert(self.index_map@.contains_key(key));
            } else {
                let k = choose|k: u64| #[trigger] old(self).index_map@.contains_key(k) && old(self).index_map@[k].0 as u64 == i;
                assert(self.index_map@.contains_key(k) && self.index_map@[k] == old(self).index_map@[k]);
            }
        }
        assert(self.view() =~= old(self).view().insert(key, value));
        assert(self.indices() =~= old(self).indices().insert(key, index));
        index
    }

    /// Whether `key` is present.
    pub fn contains(&self, key: &u64) -> (r: bool)
        requires
            self.wf(),
        ensures
            r == self.indices().contains_key(*key),
    {
        fx_get(&self.index_map, *key).is_some()
    }

    /// How many key indices have been minted.
    pub fn minted_count(&self) -> (r: u32)
        ensures
            r == self.minted(),
    {
        self.key_index
    }

    /// Takes `key` out of the table; its key index is never handed out again.
    pub fn remove(&mut self, key: &u64) -> (r: Option<(V, KeyIndex)>)
        requires
            old(self).wf(),
        ensures
            final(self).wf(),
            final(self).view() == old(self).view().remove(*key),
            final(self).indices() == old(self).indices().remove(*key),
            final(self).minted() == old(self).minted(),
            match r {
                Some((v, i)) => {
                    &&& old(self).view().contains_key(*key)
                    &&& v == old(self).view()[*key]
                    &&& i == old(self).indices()[*key]
                },
                None => !old(self).view().contains_key(*key),
            },
    {
        match fx_remove(&mut self.index_map, *key) {
            Some(index) => {
                let value = fx_remove(&mut self.value_map, index.0 as u64).unwrap();
                assert forall|k: u64| #[trigger] self.index_map@.contains_key(k) implies
                    self.value_map@.contains_key(self.index_map@[k].0 as u64) by {
                    assert(old(self).index_map@.contains_key(k));
                    assert(old(self).index_map@.contains_key(*key));
                }
                assert forall|i: u64| #[trigger] self.value_map@.contains_key(i) implies exists|k: u64|
                    #[trigger] self.index_map@.contains_key(k) && self.index_map@[k].0 as u64 == i by {
                    let k = choose|k: u64| #[trigger] old(self).index_map@.contains_key(k) && old(self).index_map@[k].0 as u64 == i;
                    assert(k != *key);
                    assert(self.index_map@.contains_key(k));
                }
                assert(self.view() =~= old(self).view().remove(*key));
                assert(self.indices() =~= old(self).indices().remove(*key));
                Some((value, index))
            },
            None => {
                assert(self.index_map@ =~= old(self).index_map@);
                assert(self.view() =~= old(self).view().remove(*key));
                assert(self.indices() =~= old(self).indices().remove(*key));
                None
            },
        }
    }
}

impl<V: Clone> Default for InputStorage<V> {
    fn default() -> (r: Self)
        ensures
            r.wf(),
            r.view() == Map::<u64, V>::empty(),
            r.minted() == 0,
    {
        Self::new()
    }
}

} // verus!
