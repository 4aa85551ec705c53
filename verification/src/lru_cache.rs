//! A least-recently-used cache: values live in a vector; a hash map gives
//! each key its slot and the epoch of its last use; an ordered map from
//! epochs to keys finds the least recently used key.

use vstd::prelude::*;
use std::collections::{BTreeMap, HashMap};

verus! {

broadcast use {vstd::std_specs::hash::group_hash_axioms, vstd::std_specs::btree::group_btree_axioms};

/// `BTreeMap::first_key_value`: the entry with the least key, which the
/// documentation states is the minimum key of the map; `None` when the map
/// is empty.
#[verifier::external_body]
fn first_epoch(set: &BTreeMap<usize, u64>) -> (r: Option<(usize, u64)>)
    ensures
        r matches Some((e, k)) ==> set@.contains_key(e) && set@[e] == k && forall|e2: usize|
            #[trigger] set@.contains_key(e2) ==> e <= e2,
        r is None ==> set@.dom() == Set::<usize>::empty(),
{
    match set.first_key_value() {
        Some((e, k)) => Some((*e, *k)),
        None => None,
    }
}

#[derive(Debug)]
pub struct LRUCache<V> {
    a_: Vec<V>,
    hm_: HashMap<u64, (usize, usize)>,
    epoch_set_: BTreeMap<usize, u64>,
    epoch_: usize,
    capacity_: usize,
}

impl<V> LRUCache<V> {
    /// The values by key.
    pub closed spec fn contents(&self) -> Map<u64, V> {
        Map::new(|k: u64| self.hm_@.contains_key(k), |k: u64| self.a_@[self.hm_@[k].0 as int])
    }

    /// The epoch of each key's last use.
    pub closed spec fn stamps(&self) -> Map<u64, usize> {
        Map::new(|k: u64| self.hm_@.contains_key(k), |k: u64| self.hm_@[k].1)
    }

    /// The epoch the next use gets.
    pub closed spec fn epoch(&self) -> nat {
        self.epoch_ as nat
    }

    /// How many keys the cache holds at most.
    pub closed spec fn capacity(&self) -> nat {
        self.capacity_ as nat
    }

    pub closed spec fn wf(&self) -> bool {
        let hm = self.hm_@;
        let es = self.epoch_set_@;
        &&& vstd::std_specs::hash::obeys_key_model::<u64>()
        &&& vstd::laws_cmp::obeys_cmp::<usize>()
        &&& self.capacity_ >= 1
        &&& hm.dom().finite()
        &&& hm.len() == self.a_@.len()
        &&& self.a_@.len() <= self.capacity_
        &&& forall|k: u64| #[trigger] hm.contains_key(k) ==> hm[k].0 < self.a_@.len() && hm[k].1 < self.epoch_
        &&& forall|k1: u64, k2: u64|
            #[trigger] hm.contains_key(k1) && #[trigger] hm.contains_key(k2) && k1 != k2 ==> hm[k1].0
                != hm[k2].0 && hm[k1].1 != hm[k2].1
        &&& forall|k: u64| #[trigger] hm.contains_key(k) ==> es.contains_key(hm[k].1) && es[hm[k].1] == k
        &&& forall|e: usize| #[trigger] es.contains_key(e) ==> hm.contains_key(es[e]) && hm[es[e]].1 == e
    }

    pub proof fn lemma_wf(&self)
        requires
            self.wf(),
        ensures
            self.contents().dom() == self.stamps().dom(),
            self.contents().dom().finite(),
            self.contents().len() <= self.capacity(),
            self.capacity() >= 1,
            forall|k: u64| #[trigger] self.stamps().contains_key(k) ==> self.stamps()[k] < self.epoch(),
            forall|k1: u64, k2: u64|
                #[trigger] self.stamps().contains_key(k1) && #[trigger] self.stamps().contains_key(k2)
                    && k1 != k2 ==> self.stamps()[k1] != self.stamps()[k2],
    {
        assert(self.contents().dom() =~= self.hm_@.dom());
        assert(self.stamps().dom() =~= self.hm_@.dom());
    }

    /// An empty cache for at most `capacity` keys.
    pub fn new(capacity: usize) -> (r: Self)
        requires
            capacity >= 1,
        ensures
            r.wf(),
            r.capacity() == capacity,
            r.contents() == Map::<u64, V>::empty(),
            r.stamps() == Map::<u64, usize>::empty(),
            r.epoch() == 1,
    {
        broadcast use vstd::laws_cmp::group_laws_cmp;
        let r = Self {
            a_: Vec::new(),
            hm_: HashMap::new(),
            epoch_set_: BTreeMap::new(),
            epoch_: 1,
            capacity_: capacity,
        };
        proof {
            assert(r.contents() =~= Map::<u64, V>::empty());
            assert(r.stamps() =~= Map::<u64, usize>::empty());
        }
        r
    }

    /// Moves `key`, which is present with slot `idx` and epoch `epoch`, to the
    /// current epoch.
    fn touch(&mut self, key: u64, idx: usize, epoch: usize)
        requires
            old(self).wf(),
            old(self).hm_@.contains_key(key),
            old(self).hm_@[key] == (idx, epoch),
            old(self).epoch_ < usize::MAX,
        ensures
            final(self).wf(),
            final(self).a_@ == old(self).a_@,
            final(self).capacity_ == old(self).capacity_,
            final(self).epoch_ == old(self).epoch_ + 1,
            final(self).hm_@ == old(self).hm_@.insert(key, (idx, old(self).epoch_)),
    {
        let ghost hm0 = self.hm_@;
        let ghost es0 = self.epoch_set_@;
        self.epoch_set_.remove(&epoch);
        self.epoch_set_.insert(self.epoch_, key);
        self.hm_.remove(&key);
        self.hm_.insert(key, (idx, self.epoch_));
        self.epoch_ += 1;
        proof {
            let hm = self.hm_@;
            let es = self.epoch_set_@;
            assert(hm == hm0.insert(key, (idx, old(self).epoch_)));
            assert(hm.dom() =~= hm0.dom());
            assert forall|k: u64| #[trigger] hm.contains_key(k) implies es.contains_key(hm[k].1) && es[hm[k].1]
                == k by {
                if k != key {
                    assert(hm0.contains_key(k) && hm0[k].1 != epoch);
                    assert(hm0[k].1 < old(self).epoch_);
                }
            }
            assert forall|e: usize| #[trigger] es.contains_key(e) implies hm.contains_key(es[e]) && hm[es[e]].1
                == e by {
                if e != old(self).epoch_ {
                    assert(es0.contains_key(e) && e != epoch);
                    assert(hm0.contains_key(es0[e]));
                    assert(es0[e] != key);
                }
            }
        }
    }

    /// The value of `key`, which becomes the most recently used.
    pub fn get(&mut self, key: &u64) -> (r: Option<&V>)
        requires
            old(self).wf(),
            old(self).epoch() < usize::MAX,
        ensures
            final(self).wf(),
            final(self).capacity() == old(self).capacity(),
            final(self).contents() == old(self).contents(),
            old(self).contents().contains_key(*key) ==> {
                &&& r == Some(&old(self).contents()[*key])
                &&& final(self).stamps() == old(self).stamps().insert(*key, old(self).epoch() as usize)
                &&& final(self).epoch() == old(self).epoch() + 1
            },
            !old(self).contents().contains_key(*key) ==> {
                &&& r is None
                &&& final(self).stamps() == old(self).stamps()
                &&& final(self).epoch() == old(self).epoch()
            },
    {
        let k = *key;
        let (idx, epoch) = match self.hm_.get(&k) {
            Some(t) => *t,
            None => {
                return None;
            },
        };
        self.touch(k, idx, epoch);
        proof {
            assert(self.contents() =~= old(self).contents());
            assert(self.stamps() =~= old(self).stamps().insert(k, old(self).epoch() as usize));
        }
        Some(&self.a_[idx])
    }

    /// Sets the value of `key`, which becomes the most recently used; returns
    /// the value it replaced. A new key in a full cache takes the place of the
    /// least recently used key.
    pub fn insert(&mut self, key: u64, value: V) -> (r: Option<V>)
        requires
            old(self).wf(),
            old(self).epoch() < usize::MAX,
        ensures
            final(self).wf(),
            final(self).capacity() == old(self).capacity(),
            final(self).epoch() == old(self).epoch() + 1,
            old(self).contents().contains_key(key) ==> {
                &&& r == Some(old(self).contents()[key])
                &&& final(self).contents() == old(self).contents().insert(key, value)
                &&& final(self).stamps() == old(self).stamps().insert(key, old(self).epoch() as usize)
            },
            !old(self).contents().contains_key(key) && old(self).contents().len() < old(self).capacity()
                ==> {
                &&& r is None
                &&& final(self).contents() == old(self).contents().insert(key, value)
                &&& final(self).stamps() == old(self).stamps().insert(key, old(self).epoch() as usize)
            },
            !old(self).contents().contains_key(key) && old(self).contents().len() >= old(self).capacity()
                ==> {
                &&& r is None
                &&& exists|lru: u64|
                    {
                        &&& #[trigger] old(self).stamps().contains_key(lru)
                        &&& forall|k: u64| #[trigger]
                            old(self).stamps().contains_key(k) ==> old(self).stamps()[lru]
                                <= old(self).stamps()[k]
                        &&& final(self).contents() == old(self).contents().remove(lru).insert(key, value)
                        &&& final(self).stamps() == old(self).stamps().remove(lru).insert(
                            key,
                            old(self).epoch() as usize,
                        )
                    }
            },
    {
        let ghost hm0 = self.hm_@;
        let ghost a0 = self.a_@;
        proof {
            self.lemma_wf();
            assert(self.contents().dom() =~= hm0.dom());
        }
        let arr_len = self.a_.len();
        if arr_len == self.capacity_ {
            match self.hm_.get(&key) {
                None => {
                    let (_epoch, key_2_replace) = match first_epoch(&self.epoch_set_) {
                        Some(x) => x,
                        None => {
                            proof {
                                assert(a0.len() > 0);
                                let k0 = choose|k: u64| hm0.contains_key(k);
                                assert(hm0.dom().len() > 0);
                                assert(hm0.contains_key(k0)) by {
                                    assert(hm0.dom().contains(hm0.dom().choose()));
                                }
                                assert(self.epoch_set_@.contains_key(hm0[hm0.dom().choose()].1));
                            }
                            return None;
                        },
                    };
                    let (idx, epoch_to_remove) = match self.hm_.get(&key_2_replace) {
                        Some(t) => *t,
                        None => {
                            return None;
                        },
                    };
                    let ghost es0 = self.epoch_set_@;
                    self.epoch_set_.remove(&epoch_to_remove);
                    self.epoch_set_.insert(self.epoch_, key);
                    self.a_.set(idx, value);
                    self.hm_.insert(key, (idx, self.epoch_));
                    self.epoch_ += 1;
                    self.hm_.remove(&key_2_replace);
                    proof {
                        let hm = self.hm_@;
                        let es = self.epoch_set_@;
                        let e0 = old(self).epoch_;
                        assert(hm == hm0.insert(key, (idx, e0)).remove(key_2_replace));
                        assert(hm.dom() =~= hm0.dom().insert(key).remove(key_2_replace));
                        assert(hm.len() == hm0.len());
                        assert forall|k: u64| #[trigger] hm.contains_key(k) implies hm[k].0 < self.a_@.len()
                            && hm[k].1 < self.epoch_ by {}
                        assert forall|k1: u64, k2: u64|
                            #[trigger] hm.contains_key(k1) && #[trigger] hm.contains_key(k2) && k1 != k2
                                implies hm[k1].0 != hm[k2].0 && hm[k1].1 != hm[k2].1 by {
                            if k1 == key {
                                assert(hm0.contains_key(k2));
                                assert(hm0[k2].1 < e0);
                            } else if k2 == key {
                                assert(hm0.contains_key(k1));
                                assert(hm0[k1].1 < e0);
                            }
                        }
                        assert forall|k: u64| #[trigger] hm.contains_key(k) implies es.contains_key(hm[k].1)
                            && es[hm[k].1] == k by {
                            if k != key {
                                assert(hm0.contains_key(k) && hm0[k].1 != epoch_to_remove);
                                assert(hm0[k].1 < e0);
                            }
                        }
                        assert forall|e: usize| #[trigger] es.contains_key(e) implies hm.contains_key(es[e])
                            && hm[es[e]].1 == e by {
                            if e != e0 {
                                assert(es0.contains_key(e) && e != epoch_to_remove);
                                assert(hm0.contains_key(es0[e]));
                                assert(es0[e] != key_2_replace);
                            }
                        }
                        let old_c = old(self).contents();
                        let old_s = old(self).stamps();
                        assert(old_s.contains_key(key_2_replace));
                        assert forall|k: u64| #[trigger] old_s.contains_key(k) implies old_s[key_2_replace]
                            <= old_s[k] by {
                            assert(es0.contains_key(hm0[k].1));
                        }
                        assert(self.contents() =~= old_c.remove(key_2_replace).insert(key, value)) by {
                            assert forall|k: u64| #[trigger] hm.contains_key(k) && k != key implies self.a_@[hm[k].0 as int]
                                == a0[hm0[k].0 as int] by {
                                assert(hm0.contains_key(k));
                                assert(hm0[k].0 != idx);
                            }
                        }
                        assert(self.stamps() =~= old_s.remove(key_2_replace).insert(key, e0));
                    }
                    None
                },
                Some(t) => {
                    let (idx, epoch) = *t;
                    Some(self.replace_present(key, value, idx, epoch))
                },
            }
        } else {
            match self.hm_.get(&key) {
                None => {
                    let ghost es0 = self.epoch_set_@;
                    self.a_.push(value);
                    self.epoch_set_.insert(self.epoch_, key);
                    self.hm_.insert(key, (arr_len, self.epoch_));
                    self.epoch_ += 1;
                    proof {
                        let hm = self.hm_@;
                        let es = self.epoch_set_@;
                        let e0 = old(self).epoch_;
                        assert(hm.dom() =~= hm0.dom().insert(key));
                        assert forall|k1: u64, k2: u64|
                            #[trigger] hm.contains_key(k1) && #[trigger] hm.contains_key(k2) && k1 != k2
                                implies hm[k1].0 != hm[k2].0 && hm[k1].1 != hm[k2].1 by {
                            if k1 == key {
                                assert(hm0.contains_key(k2));
                                assert(hm0[k2].1 < e0);
                            } else if k2 == key {
                                assert(hm0.contains_key(k1));
                                assert(hm0[k1].1 < e0);
                            }
                        }
                        assert forall|k: u64| #[trigger] hm.contains_key(k) implies es.contains_key(hm[k].1)
                            && es[hm[k].1] == k by {
                            if k != key {
                                assert(hm0[k].1 < e0);
                            }
                        }
                        assert forall|e: usize| #[trigger] es.contains_key(e) implies hm.contains_key(es[e])
                            && hm[es[e]].1 == e by {
                            if e != e0 {
                                assert(es0.contains_key(e));
                                assert(hm0.contains_key(es0[e]));
                            }
                        }
                        assert(self.contents() =~= old(self).contents().insert(key, value)) by {
                            assert forall|k: u64| #[trigger] hm.contains_key(k) && k != key implies self.a_@[hm[k].0 as int]
                                == a0[hm0[k].0 as int] by {
                                assert(hm0.contains_key(k));
                            }
                        }
                        assert(self.stamps() =~= old(self).stamps().insert(key, e0));
                    }
                    None
                },
                Some(t) => {
                    let (idx, epoch) = *t;
                    Some(self.replace_present(key, value, idx, epoch))
                },
            }
        }
    }

    /// Replaces the value of `key`, present with slot `idx` and epoch
    /// `epoch`: pushes the new value and swaps it into the slot.
    fn replace_present(&mut self, key: u64, value: V, idx: usize, epoch: usize) -> (r: V)
        requires
            old(self).wf(),
            old(self).hm_@.contains_key(key),
            old(self).hm_@[key] == (idx, epoch),
            old(self).epoch_ < usize::MAX,
        ensures
            final(self).wf(),
            final(self).capacity() == old(self).capacity(),
            final(self).epoch() == old(self).epoch() + 1,
            r == old(self).contents()[key],
            final(self).contents() == old(self).contents().insert(key, value),
            final(self).stamps() == old(self).stamps().insert(key, old(self).epoch() as usize),
    {
        let ghost a0 = self.a_@;
        let ghost hm0 = self.hm_@;
        self.a_.push(value);
        let old_value = self.a_.swap_remove(idx);
        proof {
            assert(self.a_@ =~= a0.update(idx as int, value));
        }
        self.touch(key, idx, epoch);
        proof {
            let hm = self.hm_@;
            assert(self.contents() =~= old(self).contents().insert(key, value)) by {
                assert forall|k: u64| #[trigger] hm.contains_key(k) && k != key implies self.a_@[hm[k].0 as int]
                    == a0[hm0[k].0 as int] by {
                    assert(hm0.contains_key(k));
                    assert(hm0[k].0 != idx);
                }
            }
            assert(self.stamps() =~= old(self).stamps().insert(key, old(self).epoch() as usize));
        }
        old_value
    }
}

} // verus!
