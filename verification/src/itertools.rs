//! The decisions of lazy iterator adaptors, taken one pulled item at a time:
//! a cycle that stores the items as it first reads them, the removal of one
//! item by position, a buffer that lets two readers each see every item, and
//! the grouping of runs of items with equal keys. The caller pulls the items
//! from its iterator and hands each one over as it comes.

use vstd::prelude::*;
use std::collections::VecDeque;

verus! {

/// Cycles through the items of a source: the first round passes on each
/// item pulled and stores it; later rounds move the items between two
/// queues.
pub struct LazyCycle<T> {
    store1_: VecDeque<T>,
    store2_: VecDeque<T>,
    iter_exchausted_: bool,
    iter_in_store1_: bool,
    seen: Ghost<Seq<T>>,
    yielded: Ghost<nat>,
}

impl<T: Copy> LazyCycle<T> {
    /// The items pulled from the source so far; all of them once it ended.
    pub closed spec fn items(&self) -> Seq<T> {
        self.seen@
    }

    /// How many items the cycle has given.
    pub closed spec fn count(&self) -> nat {
        self.yielded@
    }

    /// The source ended and the cycle replays the stored items.
    pub closed spec fn replaying(&self) -> bool {
        self.iter_exchausted_
    }

    pub closed spec fn wf(&self) -> bool {
        let s = self.seen@;
        let n = s.len();
        let a = if self.iter_in_store1_ {
            self.store2_@.len()
        } else {
            self.store1_@.len()
        };
        &&& !self.iter_exchausted_ ==> {
            &&& n == self.yielded@
            &&& self.store1_@ == s
            &&& self.store2_@.len() == 0
        }
        &&& self.iter_exchausted_ ==> {
            &&& n > 0
            &&& a <= n
            &&& self.yielded@ >= n
            &&& self.yielded@ % n == a % n
            &&& self.iter_in_store1_ ==> self.store2_@ == s.take(a as int) && self.store1_@ == s.skip(
                a as int,
            )
            &&& !self.iter_in_store1_ ==> self.store1_@ == s.take(a as int) && self.store2_@
                == s.skip(a as int)
        }
    }

    /// A cycle that has read nothing yet.
    pub fn new() -> (r: Self)
        ensures
            r.wf(),
            r.items() == Seq::<T>::empty(),
            r.count() == 0,
            !r.replaying(),
    {
        LazyCycle {
            store1_: VecDeque::new(),
            store2_: VecDeque::new(),
            iter_exchausted_: false,
            iter_in_store1_: false,
            seen: Ghost(Seq::empty()),
            yielded: Ghost(0),
        }
    }

    /// Whether the next item is to be pulled from the source.
    pub fn pulling(&self) -> (r: bool)
        ensures
            r == !self.replaying(),
    {
        !self.iter_exchausted_
    }

    /// Stores `x`, the item just pulled from the source, which the cycle
    /// gives next.
    pub fn record(&mut self, x: T)
        requires
            old(self).wf(),
            !old(self).replaying(),
        ensures
            final(self).wf(),
            !final(self).replaying(),
            final(self).items() == old(self).items().push(x),
            final(self).count() == old(self).count() + 1,
    {
        self.store1_.push_back(x);
        proof {
            self.seen = Ghost(self.seen@.push(x));
            self.yielded = Ghost(self.yielded@ + 1);
        }
    }

    /// The source ended: starts replaying the stored items, unless there are
    /// none (then the cycle is empty, and keeps asking the source). Returns
    /// whether it replays.
    pub fn source_ended(&mut self) -> (r: bool)
        requires
            old(self).wf(),
            !old(self).replaying(),
        ensures
            final(self).wf(),
            final(self).items() == old(self).items(),
            final(self).count() == old(self).count(),
            r == (old(self).items().len() > 0),
            final(self).replaying() == r,
    {
        let ghost s = self.seen@;
        let ghost n = s.len();
        if self.store2_.len() == 0 && self.store1_.len() == 0 {
            return false;
        }
        self.iter_exchausted_ = true;
        self.iter_in_store1_ = true;
        proof {
            assert(self.store1_@ =~= s.skip(0));
            assert(self.store2_@ =~= s.take(0));
            vstd::arithmetic::div_mod::lemma_mod_self_0(n as int);
        }
        true
    }

    /// 1 when the next call finds both queues' roles to be swapped back,
    /// else 0.
    pub closed spec fn rounds_left(&self) -> nat {
        if self.iter_exchausted_ && !self.iter_in_store1_ && self.store2_@.len() == 0 {
            1
        } else {
            0
        }
    }

    /// The next stored item: the items of the source in order, over and
    /// over.
    pub fn next_stored(&mut self) -> (r: T)
        requires
            old(self).wf(),
            old(self).replaying(),
        ensures
            final(self).wf(),
            final(self).replaying(),
            final(self).items() == old(self).items(),
            old(self).items().len() > 0,
            r == old(self).items()[(old(self).count() % old(self).items().len()) as int],
            final(self).count() == old(self).count() + 1,
        decreases old(self).rounds_left(),
    {
        let ghost s = self.seen@;
        let ghost n = s.len();
        let ghost c = self.yielded@;
        let ghost was_in_store1 = self.iter_in_store1_;
        let res = if self.iter_in_store1_ {
            self.store1_.pop_front()
        } else {
            None
        };
        match res {
            Some(x) => {
                let ghost a = self.store2_@.len();
                proof {
                    assert(a < n);
                    assert(x == s[a as int]);
                }
                self.store2_.push_back(x);
                proof {
                    self.yielded = Ghost(c + 1);
                    assert(self.store2_@ =~= s.take(a as int + 1));
                    assert(self.store1_@ =~= s.skip(a as int + 1));
                    lemma_mod_step(c as int, a as int, n as int);
                }
                x
            },
            None => {
                self.iter_in_store1_ = false;
                proof {
                    if was_in_store1 {
                        // the first queue ran dry: every item is in the second one
                        assert(self.store2_@.len() == n);
                        assert(self.store1_@ =~= s.take(0));
                        assert(self.store2_@ =~= s.skip(0));
                        vstd::arithmetic::div_mod::lemma_mod_self_0(n as int);
                        assert(c % n == 0);
                        vstd::arithmetic::div_mod::lemma_small_mod(0, n);
                    }
                }
                let res2 = self.store2_.pop_front();
                match res2 {
                    Some(x) => {
                        let ghost a = self.store1_@.len();
                        proof {
                            assert(x == s[a as int]);
                        }
                        self.store1_.push_back(x);
                        proof {
                            self.yielded = Ghost(c + 1);
                            assert(self.store1_@ =~= s.take(a as int + 1));
                            assert(self.store2_@ =~= s.skip(a as int + 1));
                            lemma_mod_step(c as int, a as int, n as int);
                        }
                        x
                    },
                    None => {
                        // The second queue ran dry: every item is back in the
                        // first one; start reading it again.
                        self.iter_in_store1_ = true;
                        proof {
                            assert(self.store1_@.len() == n);
                            assert(self.store1_@ =~= s.skip(0));
                            assert(self.store2_@ =~= s.take(0));
                            vstd::arithmetic::div_mod::lemma_mod_self_0(n as int);
                            vstd::arithmetic::div_mod::lemma_small_mod(0, n);
                        }
                        self.next_stored()
                    },
                }
            },
        }
    }
}

/// The items read ahead of the one taken out by position; they come first,
/// then the rest of the source.
pub struct Extract<T> {
    skip_: VecDeque<T>,
}

impl<T> Extract<T> {
    /// The items read ahead and not given yet.
    pub closed spec fn skipped(&self) -> Seq<T> {
        self.skip_@
    }

    pub fn new(skip: VecDeque<T>) -> (r: Self)
        ensures
            r.skipped() == skip@,
    {
        Extract { skip_: skip }
    }

    /// The next item read ahead, if any; after them come the source's own.
    pub fn next_skipped(&mut self) -> (r: Option<T>)
        ensures
            old(self).skipped().len() == 0 ==> r is None && final(self).skipped() == old(self).skipped(),
            old(self).skipped().len() > 0 ==> r == Some(old(self).skipped()[0]) && final(self).skipped()
                == old(self).skipped().drop_first(),
    {
        self.skip_.pop_front()
    }
}

/// Takes out the item at position `index` of the source from `ahead`, the
/// first items of the source (up to `index + 1` of them, fewer only when the
/// source ended): gives that item, if the source reaches it, and the others
/// to be given before the rest of the source.
pub fn extract<T>(ahead: Vec<T>, index: usize) -> (r: (Option<T>, Extract<T>))
    requires
        ahead@.len() <= index + 1,
    ensures
        index < ahead@.len() ==> r.0 == Some(ahead@[index as int]) && r.1.skipped() == ahead@.take(
            index as int,
        ),
        index >= ahead@.len() ==> r.0 is None && r.1.skipped() == ahead@,
{
    let mut a = ahead;
    let total = a.len();
    let ghost s = a@;
    let mut skip: VecDeque<T> = VecDeque::new();
    let mut rev: Vec<T> = Vec::new();
    while a.len() > 0
        invariant
            s == a@ + rev@.reverse(),
        decreases a@.len(),
    {
        let ghost a0 = a@;
        let ghost r0 = rev@;
        let x = a.pop().unwrap();
        rev.push(x);
        proof {
            assert(a0 =~= a0.drop_last().push(x));
            assert((r0.push(x)).reverse() =~= seq![x] + r0.reverse());
            assert(a0 + r0.reverse() =~= a@ + rev@.reverse());
        }
    }
    proof {
        assert(rev@.reverse() =~= s);
        assert(skip@ =~= s.take(0));
    }
    while rev.len() > 0
        invariant
            rev@.reverse() == s.skip(s.len() - rev@.len()),
            rev@.len() <= s.len(),
            skip@ == s.take(s.len() - rev@.len()),
        decreases rev@.len(),
    {
        let ghost r0 = rev@;
        let ghost k = s.len() - r0.len();
        let x = rev.pop().unwrap();
        proof {
            assert(s.skip(k)[0] == r0.reverse()[0]);
            assert(x == s[k]);
            assert(rev@.reverse() =~= s.skip(k + 1)) by {
                assert forall|i: int| 0 <= i < rev@.len() implies rev@.reverse()[i] == s.skip(k + 1)[i] by {
                    assert(rev@.reverse()[i] == r0.reverse()[i + 1]);
                    assert(s.skip(k)[i + 1] == s.skip(k + 1)[i]);
                }
            }
        }
        skip.push_back(x);
        proof {
            assert(skip@ =~= s.take(k + 1));
        }
    }
    proof {
        assert(skip@ =~= s);
    }
    if index < total {
        let x = skip.pop_back();
        proof {
            assert(skip@ =~= s.take(index as int));
        }
        (x, Extract::new(skip))
    } else {
        (None, Extract::new(skip))
    }
}

/// The shared state of two readers of one source: the items that the reader
/// behind has still to read, and which reader that is.
pub struct TeeBuffer<T> {
    backlog: VecDeque<T>,
    owner: bool,
    pulled: Ghost<Seq<T>>,
    read_true: Ghost<nat>,
    read_false: Ghost<nat>,
}

impl<T> TeeBuffer<T> {
    /// The items pulled from the source so far.
    pub closed spec fn items(&self) -> Seq<T> {
        self.pulled@
    }

    /// How many items the reader `id` has read.
    pub closed spec fn read(&self, id: bool) -> nat {
        if id {
            self.read_true@
        } else {
            self.read_false@
        }
    }

    pub closed spec fn wf(&self) -> bool {
        let hi = if self.read_true@ >= self.read_false@ {
            self.read_true@
        } else {
            self.read_false@
        };
        let lo = if self.read_true@ >= self.read_false@ {
            self.read_false@
        } else {
            self.read_true@
        };
        &&& self.pulled@.len() == hi
        &&& self.backlog@ == self.pulled@.subrange(lo as int, hi as int)
        &&& lo < hi ==> self.read(self.owner) == lo
    }

    pub fn new() -> (r: Self)
        ensures
            r.wf(),
            r.items() == Seq::<T>::empty(),
            r.read(true) == 0,
            r.read(false) == 0,
    {
        let r = TeeBuffer {
            backlog: VecDeque::new(),
            owner: false,
            pulled: Ghost(Seq::empty()),
            read_true: Ghost(0),
            read_false: Ghost(0),
        };
        proof {
            assert(r.backlog@ =~= r.pulled@.subrange(0, 0));
        }
        r
    }

    /// The next item for the reader `id` among those the other reader
    /// already pulled, if it is behind; `None` when it has read every item
    /// pulled (it pulls the next one from the source).
    pub fn take_backlog(&mut self, id: bool) -> (r: Option<T>)
        requires
            old(self).wf(),
        ensures
            final(self).wf(),
            final(self).items() == old(self).items(),
            final(self).read(!id) == old(self).read(!id),
            old(self).read(id) < old(self).items().len() ==> r == Some(
                old(self).items()[old(self).read(id) as int],
            ) && final(self).read(id) == old(self).read(id) + 1,
            old(self).read(id) >= old(self).items().len() ==> r is None && final(self).read(id)
                == old(self).read(id),
    {
        let ghost s = self.pulled@;
        let ghost ct = self.read_true@;
        let ghost cf = self.read_false@;
        if self.owner == id {
            match self.backlog.pop_front() {
                None => None,
                Some(x) => {
                    proof {
                        if id {
                            self.read_true = Ghost(ct + 1);
                            assert(self.backlog@ =~= s.subrange(ct as int + 1, cf as int));
                        } else {
                            self.read_false = Ghost(cf + 1);
                            assert(self.backlog@ =~= s.subrange(cf as int + 1, ct as int));
                        }
                    }
                    Some(x)
                },
            }
        } else {
            None
        }
    }

    /// Records `x`, the item that the reader `id`, who has read every item
    /// pulled, just pulled from the source; the other reader gets it later.
    pub fn record(&mut self, id: bool, x: T)
        requires
            old(self).wf(),
            old(self).read(id) == old(self).items().len(),
        ensures
            final(self).wf(),
            final(self).items() == old(self).items().push(x),
            final(self).read(id) == old(self).read(id) + 1,
            final(self).read(!id) == old(self).read(!id),
    {
        let ghost s = self.pulled@;
        let ghost ct = self.read_true@;
        let ghost cf = self.read_false@;
        self.backlog.push_back(x);
        self.owner = !id;
        proof {
            self.pulled = Ghost(s.push(x));
            if id {
                self.read_true = Ghost(ct + 1);
                assert(self.backlog@ =~= s.push(x).subrange(cf as int, ct as int + 1));
            } else {
                self.read_false = Ghost(cf + 1);
                assert(self.backlog@ =~= s.push(x).subrange(ct as int, cf as int + 1));
            }
        }
    }
}

/// The key that `f` gives `x`.
pub open spec fn key_of<T, F: Fn(&T) -> u64>(f: F, x: T) -> u64 {
    choose|k: u64| f.ensures((&x,), k)
}

/// `f` can be called on any item and gives each item one key.
pub open spec fn key_fn_ok<T, F: Fn(&T) -> u64>(f: F) -> bool {
    &&& forall|x: T| #[trigger] f.requires((&x,))
    &&& forall|x: T, k1: u64, k2: u64| #[trigger] f.ensures((&x,), k1) && #[trigger] f.ensures((&x,), k2) ==> k1 == k2
}

/// Groups consecutive items with equal keys, fed one at a time.
pub struct GroupBy<T, F> {
    predicate_: F,
    data_: Vec<T>,
}

impl<T, F: Fn(&T) -> u64> GroupBy<T, F> {
    /// The group being gathered.
    pub closed spec fn current(&self) -> Seq<T> {
        self.data_@
    }

    /// The key function.
    pub closed spec fn key_fn(&self) -> F {
        self.predicate_
    }

    pub closed spec fn wf(&self) -> bool {
        &&& key_fn_ok(self.predicate_)
        &&& forall|i: int|
            0 <= i < self.data_@.len() ==> key_of(self.predicate_, #[trigger] self.data_@[i])
                == key_of(self.predicate_, self.data_@[0])
    }

    pub fn new(f: F) -> (r: Self)
        requires
            key_fn_ok(f),
        ensures
            r.wf(),
            r.current() == Seq::<T>::empty(),
            r.key_fn() == f,
    {
        GroupBy { predicate_: f, data_: Vec::new() }
    }

    /// The key of `x`.
    fn key(&self, x: &T) -> (k: u64)
        requires
            key_fn_ok(self.predicate_),
        ensures
            k == key_of(self.predicate_, *x),
    {
        let k = (self.predicate_)(x);
        proof {
            assert(self.predicate_.ensures((x,), k));
            let c = key_of(self.predicate_, *x);
            assert(self.predicate_.ensures((&*x,), c));
        }
        k
    }

    /// Takes the next item of the source. When its key differs from that of
    /// the group being gathered, that group is complete: it is returned with
    /// its key, and `x` starts the next one. Otherwise `x` joins the group.
    pub fn feed(&mut self, x: T) -> (r: Option<(u64, Vec<T>)>)
        requires
            old(self).wf(),
        ensures
            final(self).wf(),
            final(self).key_fn() == old(self).key_fn(),
            ({
                let g = old(self).current();
                let f = old(self).key_fn();
                if g.len() > 0 && key_of(f, x) != key_of(f, g[0]) {
                    &&& r matches Some((k, v)) && v@ == g && k == key_of(f, g[0])
                    &&& final(self).current() == seq![x]
                } else {
                    &&& r is None
                    &&& final(self).current() == g.push(x)
                }
            }),
    {
        let ghost g = self.data_@;
        let ghost f = self.predicate_;
        let n = self.data_.len();
        if n > 0 {
            let kx = self.key(&x);
            let kl = self.key(&self.data_[n - 1]);
            proof {
                assert(key_of(f, g[n - 1]) == key_of(f, g[0]));
            }
            if kx != kl {
                let mut done: Vec<T> = Vec::new();
                std::mem::swap(&mut done, &mut self.data_);
                self.data_.push(x);
                proof {
                    assert(self.data_@ =~= seq![x]);
                }
                return Some((kl, done));
            }
        }
        self.data_.push(x);
        proof {
            assert(self.data_@ =~= g.push(x));
            assert forall|i: int| 0 <= i < self.data_@.len() implies key_of(f, #[trigger] self.data_@[i])
                == key_of(f, self.data_@[0]) by {
                if i < g.len() {
                    assert(self.data_@[i] == g[i]);
                }
            }
        }
        None
    }

    /// The source ended: the group being gathered, if any, with its key.
    pub fn finish(&mut self) -> (r: Option<(u64, Vec<T>)>)
        requires
            old(self).wf(),
        ensures
            final(self).wf(),
            final(self).key_fn() == old(self).key_fn(),
            final(self).current() == Seq::<T>::empty(),
            old(self).current().len() == 0 ==> r is None,
            old(self).current().len() > 0 ==> (r matches Some((k, v)) && v@ == old(self).current()
                && k == key_of(old(self).key_fn(), old(self).current()[0])),
    {
        let n = self.data_.len();
        if n == 0 {
            return None;
        }
        let ghost g = self.data_@;
        let k = self.key(&self.data_[n - 1]);
        proof {
            assert(key_of(self.predicate_, g[n - 1]) == key_of(self.predicate_, g[0]));
        }
        let mut done: Vec<T> = Vec::new();
        std::mem::swap(&mut done, &mut self.data_);
        Some((k, done))
    }
}

proof fn lemma_mod_step(c: int, a: int, n: int)
    requires
        n > 0,
        c >= 0,
        0 <= a < n,
        c % n == a % n,
    ensures
        c % n == a,
        (c + 1) % n == (a + 1) % n,
{
    vstd::arithmetic::div_mod::lemma_small_mod(a as nat, n as nat);
    vstd::arithmetic::div_mod::lemma_add_mod_noop(c, 1, n);
    vstd::arithmetic::div_mod::lemma_add_mod_noop(a, 1, n);
}

} // verus!
