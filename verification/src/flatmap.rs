//! A map kept as one vector of (key, value) pairs. Inserting sorts the pairs
//! by key; removing swaps the last pair into the gap; lookups scan the pairs.

use vstd::prelude::*;

verus! {

/// The map that the pairs of `s` stand for; a later pair wins over an
/// earlier one with the same key.
pub open spec fn entries_map<V>(s: Seq<(u64, V)>) -> Map<u64, V>
    decreases s.len(),
{
    if s.len() == 0 {
        Map::empty()
    } else {
        entries_map(s.drop_last()).insert(s.last().0, s.last().1)
    }
}

/// No key occurs twice.
pub open spec fn keys_unique<V>(s: Seq<(u64, V)>) -> bool {
    forall|i: int, j: int| 0 <= i < j < s.len() ==> s[i].0 != s[j].0
}

/// The keys increase strictly.
pub open spec fn sorted_by_key<V>(s: Seq<(u64, V)>) -> bool {
    forall|i: int, j: int| 0 <= i < j < s.len() ==> s[i].0 < s[j].0
}

/// With distinct keys, the map holds exactly the pairs of the sequence.
pub proof fn lemma_entries_map<V>(s: Seq<(u64, V)>)
    requires
        keys_unique(s),
    ensures
        forall|i: int|
            0 <= i < s.len() ==> #[trigger] entries_map(s).contains_key(s[i].0) && entries_map(
                s,
            )[s[i].0] == s[i].1,
        forall|k: u64|
            #[trigger] entries_map(s).contains_key(k) ==> exists|i: int| 0 <= i < s.len() && s[i].0 == k,
    decreases s.len(),
{
    if s.len() > 0 {
        let t = s.drop_last();
        assert(keys_unique(t));
        lemma_entries_map(t);
        assert forall|i: int| 0 <= i < s.len() implies #[trigger] entries_map(s).contains_key(s[i].0)
            && entries_map(s)[s[i].0] == s[i].1 by {
            if i < s.len() - 1 {
                assert(t[i] == s[i]);
                assert(entries_map(t).contains_key(t[i].0));
                assert(s[i].0 != s[s.len() - 1].0);
            }
        }
        assert forall|k: u64| #[trigger] entries_map(s).contains_key(k) implies exists|i: int|
            0 <= i < s.len() && s[i].0 == k by {
            if k != s.last().0 {
                assert(entries_map(t).contains_key(k));
                let i = choose|i: int| 0 <= i < t.len() && t[i].0 == k;
                assert(s[i] == t[i]);
            } else {
                assert(s[s.len() - 1].0 == k);
            }
        }
    }
}

/// Two sequences with distinct keys and the same pairs stand for the same map.
proof fn lemma_same_map<V>(s1: Seq<(u64, V)>, s2: Seq<(u64, V)>)
    requires
        keys_unique(s1),
        keys_unique(s2),
        forall|i: int| 0 <= i < s1.len() ==> s2.contains(#[trigger] s1[i]),
        forall|j: int| 0 <= j < s2.len() ==> s1.contains(#[trigger] s2[j]),
    ensures
        entries_map(s1) == entries_map(s2),
{
    lemma_entries_map(s1);
    lemma_entries_map(s2);
    assert forall|k: u64| entries_map(s1).contains_key(k) implies entries_map(s2).contains_key(k)
        && entries_map(s1)[k] == entries_map(s2)[k] by {
        let i = choose|i: int| 0 <= i < s1.len() && s1[i].0 == k;
        let j = choose|j: int| 0 <= j < s2.len() && s2[j] == s1[i];
        assert(entries_map(s2).contains_key(s2[j].0));
    }
    assert forall|k: u64| entries_map(s2).contains_key(k) implies entries_map(s1).contains_key(k) by {
        let j = choose|j: int| 0 <= j < s2.len() && s2[j].0 == k;
        let i = choose|i: int| 0 <= i < s1.len() && s1[i] == s2[j];
        assert(entries_map(s1).contains_key(s1[i].0));
    }
    assert(entries_map(s1) =~= entries_map(s2));
}

/// Swapping the last pair into position `i` and dropping the last one
/// removes the key at `i`.
proof fn lemma_swap_remove_map<V>(s: Seq<(u64, V)>, i: int)
    requires
        keys_unique(s),
        0 <= i < s.len(),
    ensures
        keys_unique(s.update(i, s.last()).drop_last()),
        entries_map(s.update(i, s.last()).drop_last()) == entries_map(s).remove(s[i].0),
{
    let n = s.len() as int;
    let t = s.update(i, s.last()).drop_last();
    let u = s.remove(i);
    assert forall|a: int, b: int| 0 <= a < b < t.len() implies t[a].0 != t[b].0 by {
        if a == i {
            assert(t[a] == s[n - 1]);
        } else if b == i {
            assert(t[b] == s[n - 1]);
        }
    }
    assert(keys_unique(u));
    assert forall|a: int| 0 <= a < t.len() implies u.contains(#[trigger] t[a]) by {
        if a == i {
            if i < n - 1 {
                assert(u[n - 2] == t[a]);
            }
        } else if a < i {
            assert(u[a] == t[a]);
        } else {
            assert(u[a - 1] == t[a]);
        }
    }
    assert forall|b: int| 0 <= b < u.len() implies t.contains(#[trigger] u[b]) by {
        if b < i {
            assert(t[b] == u[b]);
        } else if b == n - 2 {
            assert(t[i] == u[b]);
        } else {
            assert(t[b + 1] == u[b]);
        }
    }
    lemma_same_map(t, u);
    lemma_entries_map(s);
    lemma_entries_map(u);
    assert forall|k: u64| entries_map(u).contains_key(k) <==> entries_map(s).remove(s[i].0).contains_key(k) by {
        if entries_map(u).contains_key(k) {
            let b = choose|b: int| 0 <= b < u.len() && u[b].0 == k;
            if b < i {
                assert(s[b] == u[b]);
            } else {
                assert(s[b + 1] == u[b]);
            }
        }
        if entries_map(s).remove(s[i].0).contains_key(k) {
            let a = choose|a: int| 0 <= a < s.len() && s[a].0 == k;
            if a < i {
                assert(u[a] == s[a]);
                assert(entries_map(u).contains_key(u[a].0));
            } else {
                assert(u[a - 1] == s[a]);
                assert(entries_map(u).contains_key(u[a - 1].0));
            }
        }
    }
    assert forall|k: u64| entries_map(u).contains_key(k) implies entries_map(u)[k] == entries_map(s).remove(
        s[i].0,
    )[k] by {
        let b = choose|b: int| 0 <= b < u.len() && u[b].0 == k;
        if b < i {
            assert(s[b] == u[b]);
        } else {
            assert(s[b + 1] == u[b]);
        }
    }
    assert(entries_map(u) =~= entries_map(s).remove(s[i].0));
}

/// Inserting a pair with a new key at any position adds it to the map.
proof fn lemma_insert_map<V>(s: Seq<(u64, V)>, p: int, e: (u64, V))
    requires
        keys_unique(s),
        0 <= p <= s.len(),
        !entries_map(s).contains_key(e.0),
    ensures
        keys_unique(s.insert(p, e)),
        entries_map(s.insert(p, e)) == entries_map(s).insert(e.0, e.1),
{
    lemma_entries_map(s);
    let t = s.insert(p, e);
    let u = s.push(e);
    assert forall|a: int, b: int| 0 <= a < b < t.len() implies t[a].0 != t[b].0 by {
        if a == p {
            if b > p {
                assert(t[b] == s[b - 1]);
                assert(entries_map(s).contains_key(s[b - 1].0));
            }
        } else if b == p {
            assert(t[a] == s[a]);
            assert(entries_map(s).contains_key(s[a].0));
        }
    }
    assert forall|a: int, b: int| 0 <= a < b < u.len() implies u[a].0 != u[b].0 by {
        if b == s.len() {
            assert(entries_map(s).contains_key(s[a].0));
        }
    }
    assert forall|a: int| 0 <= a < t.len() implies u.contains(#[trigger] t[a]) by {
        if a < p {
            assert(u[a] == t[a]);
        } else if a == p {
            assert(u[s.len() as int] == t[a]);
        } else {
            assert(u[a - 1] == t[a]);
        }
    }
    assert forall|b: int| 0 <= b < u.len() implies t.contains(#[trigger] u[b]) by {
        if b == s.len() {
            assert(t[p] == u[b]);
        } else if b < p {
            assert(t[b] == u[b]);
        } else {
            assert(t[b + 1] == u[b]);
        }
    }
    lemma_same_map(t, u);
    assert(u.drop_last() =~= s);
}

#[derive(Debug)]
pub struct FlatMap<V> {
    data_: Vec<(u64, V)>,
}

impl<V> View for FlatMap<V> {
    type V = Map<u64, V>;

    closed spec fn view(&self) -> Map<u64, V> {
        entries_map(self.data_@)
    }
}

/// `Vec::capacity`: how many elements the vector holds without
/// reallocating, which is never fewer than the elements it holds. What the
/// allocator gave beyond that is left unsaid.
#[verifier::external_body]
fn vec_capacity<V>(v: &Vec<(u64, V)>) -> (r: usize)
    ensures
        r >= v@.len(),
{
    v.capacity()
}

impl<V> FlatMap<V> {
    /// The pairs in their stored order.
    pub closed spec fn pairs(&self) -> Seq<(u64, V)> {
        self.data_@
    }

    pub closed spec fn wf(&self) -> bool {
        keys_unique(self.data_@)
    }

    /// What well-formedness gives: no key occurs twice among the pairs, and
    /// the map is the one the pairs stand for.
    pub proof fn lemma_view(&self)
        requires
            self.wf(),
        ensures
            keys_unique(self.pairs()),
            self@ == entries_map(self.pairs()),
    {
    }

    pub fn new() -> (r: Self)
        ensures
            r.wf(),
            r.pairs() == Seq::<(u64, V)>::empty(),
            r@ == Map::<u64, V>::empty(),
    {
        Self { data_: Vec::new() }
    }

    pub fn len(&self) -> (r: usize)
        requires
            self.wf(),
        ensures
            r == self.pairs().len(),
            r == self@.len(),
    {
        proof {
            self.lemma_len();
        }
        self.data_.len()
    }

    proof fn lemma_len(&self)
        requires
            self.wf(),
        ensures
            self@.len() == self.pairs().len(),
        decreases self.pairs().len(),
    {
        let s = self.data_@;
        lemma_len_map(s);
    }

    pub fn is_empty(&self) -> (r: bool)
        requires
            self.wf(),
        ensures
            r == (self@.len() == 0),
    {
        proof {
            self.lemma_len();
        }
        self.data_.len() == 0
    }

    /// How many pairs the storage holds without reallocating.
    pub fn capacity(&self) -> (r: usize)
        ensures
            r >= self.pairs().len(),
    {
        vec_capacity(&self.data_)
    }

    pub fn as_slice(&self) -> (r: &[(u64, V)])
        ensures
            r@ == self.pairs(),
    {
        self.data_.as_slice()
    }

    /// The index of the pair with key `key`, if any.
    fn position(&self, key: u64) -> (r: Option<usize>)
        ensures
            r matches Some(i) ==> i < self.pairs().len() && self.pairs()[i as int].0 == key,
            r is None ==> forall|i: int| 0 <= i < self.pairs().len() ==> self.pairs()[i].0 != key,
            self.wf() ==> (r is Some <==> self@.contains_key(key)),
    {
        let mut i: usize = 0;
        while i < self.data_.len()
            invariant
                i <= self.data_@.len(),
                forall|j: int| 0 <= j < i ==> self.data_@[j].0 != key,
            decreases self.data_@.len() - i,
        {
            if self.data_[i].0 == key {
                proof {
                    if self.wf() {
                        lemma_entries_map(self.data_@);
                    }
                }
                return Some(i);
            }
            i += 1;
        }
        proof {
            if self.wf() {
                lemma_entries_map(self.data_@);
                if self@.contains_key(key) {
                    let j = choose|j: int| 0 <= j < self.data_@.len() && self.data_@[j].0 == key;
                }
            }
        }
        None
    }

    /// Rebuilds the storage with the pairs sorted by key.
    fn sort(&mut self)
        requires
            old(self).wf(),
        ensures
            final(self).wf(),
            sorted_by_key(final(self).pairs()),
            final(self)@ == old(self)@,
    {
        let ghost m = self@;
        let mut rest: Vec<(u64, V)> = Vec::new();
        std::mem::swap(&mut rest, &mut self.data_);
        let mut out: Vec<(u64, V)> = Vec::new();
        proof {
            assert(entries_map(rest@).union_prefer_right(entries_map(out@)) =~= m);
        }
        while rest.len() > 0
            invariant
                keys_unique(rest@),
                sorted_by_key(out@),
                keys_unique(out@),
                forall|k: u64| #[trigger] entries_map(rest@).contains_key(k) ==> !entries_map(out@).contains_key(k),
                entries_map(rest@).union_prefer_right(entries_map(out@)) == m,
            decreases rest@.len(),
        {
            let ghost r0 = rest@;
            let ghost o0 = out@;
            let e = rest.pop().unwrap();
            proof {
                assert(rest@ =~= r0.drop_last());
                assert(keys_unique(rest@));
                lemma_entries_map(r0);
                lemma_entries_map(rest@);
                assert(entries_map(r0) == entries_map(rest@).insert(e.0, e.1));
                assert(entries_map(r0).contains_key(e.0));
                if entries_map(rest@).contains_key(e.0) {
                    let j = choose|j: int| 0 <= j < rest@.len() && rest@[j].0 == e.0;
                    assert(r0[j] == rest@[j]);
                    assert(r0[r0.len() - 1].0 == e.0);
                }
                assert(!entries_map(o0).contains_key(e.0));
            }
            let mut p: usize = 0;
            while p < out.len() && out[p].0 < e.0
                invariant
                    p <= out@.len(),
                    forall|j: int| 0 <= j < p ==> out@[j].0 < e.0,
                decreases out@.len() - p,
            {
                p += 1;
            }
            proof {
                lemma_entries_map(o0);
                if p < out@.len() {
                    assert(out@[p as int].0 != e.0);
                }
                lemma_insert_map(o0, p as int, e);
            }
            out.insert(p, e);
            proof {
                assert forall|a: int, b: int| 0 <= a < b < out@.len() implies out@[a].0 < out@[b].0 by {
                    if a < p && b > p {
                        assert(out@[a] == o0[a]);
                        assert(out@[b] == o0[b - 1]);
                    }
                    if a == p && b > p {
                        assert(out@[b] == o0[b - 1]);
                        assert(o0[p as int].0 <= o0[b - 1].0);
                    }
                }
                assert forall|k: u64| #[trigger] entries_map(rest@).contains_key(k) implies !entries_map(
                    out@,
                ).contains_key(k) by {
                    assert(entries_map(r0).contains_key(k));
                }
                assert(entries_map(rest@).union_prefer_right(entries_map(out@)) =~= m);
            }
        }
        proof {
            assert(rest@.len() == 0);
            assert(entries_map(rest@) =~= Map::<u64, V>::empty());
            assert(entries_map(out@) =~= m);
        }
        self.data_ = out;
    }

    /// Sets the value of `key`; returns the value it replaced. The pairs are
    /// sorted by key afterwards.
    pub fn insert(&mut self, key: u64, value: V) -> (r: Option<V>)
        requires
            old(self).wf(),
            old(self).pairs().len() < usize::MAX,
        ensures
            final(self).wf(),
            sorted_by_key(final(self).pairs()),
            final(self)@ == old(self)@.insert(key, value),
            r == (if old(self)@.contains_key(key) {
                Some(old(self)@[key])
            } else {
                None
            }),
    {
        let ghost s0 = self.data_@;
        let idx = self.position(key);
        let result = match idx {
            Some(x) => {
                proof {
                    lemma_entries_map(s0);
                    lemma_swap_remove_map(s0, x as int);
                }
                Some(self.data_.swap_remove(x).1)
            },
            None => None,
        };
        proof {
            let s1 = self.data_@;
            lemma_entries_map(s1);
            if entries_map(s1).contains_key(key) {
                let j = choose|j: int| 0 <= j < s1.len() && s1[j].0 == key;
                if idx is None {
                    assert(s0[j].0 == key);
                }
            }
            lemma_insert_map(s1, s1.len() as int, (key, value));
            assert(s1.insert(s1.len() as int, (key, value)) =~= s1.push((key, value)));
        }
        self.data_.push((key, value));
        proof {
            assert(entries_map(self.data_@) =~= entries_map(s0).insert(key, value));
        }
        self.sort();
        result
    }

    /// The value of `key`. The pairs are searched one by one, so every key
    /// present is found whatever their order after removals.
    pub fn get(&self, key: u64) -> (r: Option<&V>)
        requires
            self.wf(),
        ensures
            r == (if self@.contains_key(key) {
                Some(&self@[key])
            } else {
                None
            }),
    {
        match self.position(key) {
            Some(i) => {
                proof {
                    lemma_entries_map(self.data_@);
                }
                Some(&self.data_[i].1)
            },
            None => None,
        }
    }

    /// Removes `key`, moving the last pair into its place; returns its value.
    pub fn remove(&mut self, key: u64) -> (r: Option<V>)
        requires
            old(self).wf(),
        ensures
            final(self).wf(),
            final(self)@ == old(self)@.remove(key),
            r == (if old(self)@.contains_key(key) {
                Some(old(self)@[key])
            } else {
                None
            }),
            !old(self)@.contains_key(key) ==> final(self).pairs() == old(self).pairs(),
            old(self)@.contains_key(key) ==> exists|i: int|
                0 <= i < old(self).pairs().len() && old(self).pairs()[i].0 == key
                    && final(self).pairs() == old(self).pairs().update(i, old(self).pairs().last()).drop_last(),
    {
        match self.remove_entry(key) {
            Some(e) => Some(e.1),
            None => None,
        }
    }

    /// Removes `key`, moving the last pair into its place; returns the pair.
    pub fn remove_entry(&mut self, key: u64) -> (r: Option<(u64, V)>)
        requires
            old(self).wf(),
        ensures
            final(self).wf(),
            final(self)@ == old(self)@.remove(key),
            r == (if old(self)@.contains_key(key) {
                Some((key, old(self)@[key]))
            } else {
                None
            }),
            !old(self)@.contains_key(key) ==> final(self).pairs() == old(self).pairs(),
            old(self)@.contains_key(key) ==> exists|i: int|
                0 <= i < old(self).pairs().len() && old(self).pairs()[i].0 == key
                    && final(self).pairs() == old(self).pairs().update(i, old(self).pairs().last()).drop_last(),
    {
        let ghost s0 = self.data_@;
        match self.position(key) {
            Some(x) => {
                proof {
                    lemma_entries_map(s0);
                    lemma_swap_remove_map(s0, x as int);
                }
                let e = self.data_.swap_remove(x);
                proof {
                    assert(self.data_@ =~= s0.update(x as int, s0.last()).drop_last());
                }
                Some(e)
            },
            None => {
                proof {
                    assert(old(self)@.remove(key) =~= old(self)@);
                }
                None
            },
        }
    }

    /// The value of `key`, which must be present.
    pub fn index(&self, key: u64) -> (r: &V)
        requires
            self.wf(),
            self@.contains_key(key),
        ensures
            *r == self@[key],
    {
        proof {
            lemma_entries_map(self.data_@);
        }
        let mut i: usize = 0;
        while i < self.data_.len()
            invariant
                i <= self.data_@.len(),
                keys_unique(self.data_@),
                forall|j: int| 0 <= j < i ==> self.data_@[j].0 != key,
            decreases self.data_@.len() - i,
        {
            if self.data_[i].0 == key {
                proof {
                    lemma_entries_map(self.data_@);
                    assert(entries_map(self.data_@).contains_key(self.data_@[i as int].0));
                }
                return &self.data_[i].1;
            }
            i += 1;
        }
        proof {
            let j = choose|j: int| 0 <= j < self.data_@.len() && self.data_@[j].0 == key;
            assert(false);
        }
        &self.data_[0].1
    }

    /// Inserts the given pairs in order: a later pair wins.
    pub fn extend(&mut self, items: Vec<(u64, V)>)
        requires
            old(self).wf(),
            old(self).pairs().len() + items@.len() <= usize::MAX,
        ensures
            final(self).wf(),
            final(self)@ == old(self)@.union_prefer_right(entries_map(items@)),
            items@.len() > 0 ==> sorted_by_key(final(self).pairs()),
            items@.len() == 0 ==> final(self).pairs() == old(self).pairs(),
    {
        let mut v = items;
        let ghost all = v@;
        let ghost m_start = self@;
        let ghost len_start = self.pairs().len();
        let total = v.len();
        let mut rev: Vec<(u64, V)> = Vec::new();
        proof {
            assert(all =~= v@ + rev@.reverse());
        }
        while v.len() > 0
            invariant
                all == v@ + rev@.reverse(),
            decreases v@.len(),
        {
            let ghost v0 = v@;
            let ghost r0 = rev@;
            let e = v.pop().unwrap();
            rev.push(e);
            proof {
                assert(v@ + rev@.reverse() =~= v0.drop_last() + (r0.push(e)).reverse());
                assert(v0 =~= v0.drop_last().push(e));
                assert((r0.push(e)).reverse() =~= seq![e] + r0.reverse());
                assert(v0 + r0.reverse() =~= v0.drop_last() + (seq![e] + r0.reverse()));
            }
        }
        proof {
            assert(v@.len() == 0);
            assert(rev@.reverse() =~= all);
            assert(all.skip(0) =~= all);
            assert(all.take(0) =~= Seq::<(u64, V)>::empty());
            assert(m_start.union_prefer_right(Map::<u64, V>::empty()) =~= m_start);
        }
        let ghost n = all.len();
        assert(n == total);
        while rev.len() > 0
            invariant
                self.wf(),
                rev@.reverse() == all.skip(n - rev@.len()),
                n == all.len(),
                len_start + n <= usize::MAX,
                rev@.len() <= n,
                self@ == m_start.union_prefer_right(entries_map(all.take(n - rev@.len()))),
                rev@.len() < n ==> sorted_by_key(self.pairs()),
                rev@.len() == n ==> self.pairs() == old(self).pairs(),
                self.pairs().len() <= len_start + (n - rev@.len()),
            decreases rev@.len(),
        {
            let ghost r0 = rev@;
            let e = rev.pop().unwrap();
            proof {
                let k = n - r0.len();
                assert(all.skip(k)[0] == r0.reverse()[0]);
                assert(all[k] == e);
                assert(rev@.reverse() =~= all.skip(k + 1)) by {
                    assert forall|i: int| 0 <= i < rev@.len() implies rev@.reverse()[i] == all.skip(k + 1)[i] by {
                        assert(rev@.reverse()[i] == r0.reverse()[i + 1]);
                        assert(all.skip(k)[i + 1] == all.skip(k + 1)[i]);
                    }
                }
                assert(all.take(k + 1).drop_last() =~= all.take(k));
                assert(all.take(k + 1).last() == e);
                assert(m_start.union_prefer_right(entries_map(all.take(k))).insert(e.0, e.1) =~= m_start.union_prefer_right(
                    entries_map(all.take(k + 1)),
                ));
                self.lemma_len();
                lemma_len_map(self.pairs());
            }
            let ghost m0 = self@;
            self.insert(e.0, e.1);
            proof {
                self.lemma_len();
                assert(self@.dom() =~= m0.dom().insert(e.0));
            }
        }
        proof {
            assert(all.take(n as int) =~= all);
        }
    }

    /// A map of the given pairs, inserted in order: a later pair wins.
    pub fn from_vec(v: Vec<(u64, V)>) -> (r: Self)
        ensures
            r.wf(),
            r@ == entries_map(v@),
            v@.len() > 0 ==> sorted_by_key(r.pairs()),
    {
        let mut res = Self::new();
        let _count = v.len();
        res.extend(v);
        proof {
            assert(Map::<u64, V>::empty().union_prefer_right(entries_map(v@)) =~= entries_map(v@));
        }
        res
    }

    /// The pairs in their stored order.
    pub fn into_vec(self) -> (r: Vec<(u64, V)>)
        ensures
            r@ == self.pairs(),
    {
        self.data_
    }
}

proof fn lemma_len_map<V>(s: Seq<(u64, V)>)
    requires
        keys_unique(s),
    ensures
        entries_map(s).len() == s.len(),
        entries_map(s).dom().finite(),
    decreases s.len(),
{
    if s.len() > 0 {
        let t = s.drop_last();
        assert(keys_unique(t));
        lemma_len_map(t);
        lemma_entries_map(t);
        if entries_map(t).contains_key(s.last().0) {
            let j = choose|j: int| 0 <= j < t.len() && t[j].0 == s.last().0;
            assert(s[j] == t[j]);
        }
    }
}

} // verus!
