//! A FIFO queue that reports its minimum in constant time, built from two
//! stacks whose entries carry the minimum of the entries below them.

use vstd::prelude::*;

verus! {

/// The values of a stack of (value, minimum) pairs, bottom first.
pub open spec fn values(d: Seq<(i64, i64)>) -> Seq<i64> {
    d.map_values(|p: (i64, i64)| p.0)
}

/// `m` is the least element of `s`.
pub open spec fn is_min(m: i64, s: Seq<i64>) -> bool {
    &&& s.contains(m)
    &&& forall|j: int| 0 <= j < s.len() ==> m <= #[trigger] s[j]
}

/// Every entry's second component is the minimum of the values up to it.
pub open spec fn prefix_mins(d: Seq<(i64, i64)>) -> bool {
    forall|i: int| 0 <= i < d.len() ==> is_min(#[trigger] d[i].1, values(d).take(i + 1))
}

/// Pushing a value with the minimum of it and the top's minimum keeps the
/// prefix minima.
proof fn lemma_push_min(d: Seq<(i64, i64)>, val: i64, m: i64)
    requires
        prefix_mins(d),
        m == (if d.len() == 0 {
            val
        } else if val < d.last().1 {
            val
        } else {
            d.last().1
        }),
    ensures
        prefix_mins(d.push((val, m))),
{
    let e = d.push((val, m));
    let n = d.len() as int;
    assert(values(e) =~= values(d).push(val));
    assert forall|i: int| 0 <= i < e.len() implies is_min(#[trigger] e[i].1, values(e).take(i + 1)) by {
        let t = values(e).take(i + 1);
        if i < n {
            assert(t =~= values(d).take(i + 1));
        } else {
            assert(t[n] == val);
            if n == 0 || val < d[n - 1].1 {
                assert(t.contains(val));
            } else {
                assert(is_min(d[n - 1].1, values(d).take(n)));
                let j0 = choose|j: int| 0 <= j < n && values(d).take(n)[j] == d[n - 1].1;
                assert(t[j0] == values(d).take(n)[j0]);
                assert(t.contains(m));
            }
            assert forall|j: int| 0 <= j < t.len() implies m <= #[trigger] t[j] by {
                if j < n {
                    assert(t[j] == values(d).take(n)[j]);
                    assert(is_min(d[n - 1].1, values(d).take(n)));
                }
            }
        }
    }
}

pub struct MinQueue {
    data1: Vec<(i64, i64)>,
    data2: Vec<(i64, i64)>,
}

impl View for MinQueue {
    type V = Seq<i64>;

    /// The queue's elements, front first.
    closed spec fn view(&self) -> Seq<i64> {
        values(self.data2@).reverse() + values(self.data1@)
    }
}

impl MinQueue {
    pub closed spec fn wf(&self) -> bool {
        &&& prefix_mins(self.data1@)
        &&& prefix_mins(self.data2@)
        &&& self.data1@.len() + self.data2@.len() <= usize::MAX
    }

    pub fn new() -> (r: Self)
        ensures
            r.wf(),
            r@ == Seq::<i64>::empty(),
    {
        let r = Self { data1: Vec::new(), data2: Vec::new() };
        proof {
            assert(r@ =~= Seq::<i64>::empty());
        }
        r
    }

    /// Adds `val` at the back.
    pub fn push(&mut self, val: i64)
        requires
            old(self).wf(),
            old(self)@.len() < usize::MAX,
        ensures
            final(self).wf(),
            final(self)@ == old(self)@.push(val),
    {
        let ghost d = self.data1@;
        let min_val: i64 = if self.data1.len() == 0 {
            val
        } else {
            let data1_min = self.data1[self.data1.len() - 1].1;
            if val < data1_min {
                val
            } else {
                data1_min
            }
        };
        proof {
            lemma_push_min(d, val, min_val);
        }
        self.data1.push((val, min_val));
        proof {
            assert(values(self.data1@) =~= values(d).push(val));
            assert(self@ =~= old(self)@.push(val));
        }
    }

    /// Moves the back stack onto the front stack, reversed, when the front
    /// stack is empty.
    fn transfer(&mut self)
        requires
            old(self).wf(),
            old(self).data2@.len() == 0,
        ensures
            final(self).wf(),
            final(self)@ == old(self)@,
            final(self).data1@.len() == 0,
            final(self).data2@.len() == old(self).data1@.len(),
    {
        let n = self.data1.len();
        let mut i: usize = 0;
        while i < n
            invariant
                n == self.data1@.len(),
                i <= n,
                self.data1@ == old(self).data1@,
                self.data2@.len() == i,
                prefix_mins(self.data2@),
                values(self.data2@) =~= values(self.data1@).reverse().take(i as int),
            decreases n - i,
        {
            let t = self.data1[n - 1 - i];
            let ghost d2 = self.data2@;
            let m: i64 = if i == 0 {
                t.0
            } else {
                let below = self.data2[i - 1].1;
                if t.0 < below {
                    t.0
                } else {
                    below
                }
            };
            proof {
                lemma_push_min(d2, t.0, m);
            }
            self.data2.push((t.0, m));
            proof {
                let vr = values(self.data1@).reverse();
                assert(vr[i as int] == t.0);
                assert(values(self.data2@) =~= vr.take(i + 1));
            }
            i += 1;
        }
        self.data1 = Vec::new();
        proof {
            assert(values(self.data2@) =~= values(old(self).data1@).reverse());
            assert(values(self.data2@).reverse() =~= values(old(self).data1@));
            assert(values(old(self).data2@) =~= Seq::<i64>::empty());
            assert(self@ =~= old(self)@);
        }
    }

    /// Removes and returns the front element.
    pub fn pop(&mut self) -> (r: Option<i64>)
        requires
            old(self).wf(),
        ensures
            final(self).wf(),
            old(self)@.len() == 0 ==> r is None && final(self)@ == old(self)@,
            old(self)@.len() > 0 ==> r == Some(old(self)@[0]) && final(self)@ == old(
                self,
            )@.drop_first(),
    {
        if self.data2.len() == 0 {
            self.transfer();
        }
        let ghost d2 = self.data2@;
        let ghost q = self@;
        match self.data2.pop() {
            Some(t) => {
                proof {
                    let n = d2.len() as int;
                    assert(values(d2).reverse()[0] == t.0);
                    assert(values(self.data2@) =~= values(d2).drop_last());
                    assert(values(self.data2@).reverse() =~= values(d2).reverse().drop_first());
                    assert(self@ =~= q.drop_first());
                    assert forall|i: int| 0 <= i < self.data2@.len() implies is_min(
                        #[trigger] self.data2@[i].1,
                        values(self.data2@).take(i + 1),
                    ) by {
                        assert(values(self.data2@).take(i + 1) =~= values(d2).take(i + 1));
                        assert(self.data2@[i] == d2[i]);
                    }
                }
                Some(t.0)
            },
            None => {
                proof {
                    assert(q =~= Seq::<i64>::empty());
                }
                None
            },
        }
    }

    /// The front element.
    pub fn front(&self) -> (r: Option<&i64>)
        ensures
            self@.len() == 0 ==> r is None,
            self@.len() > 0 ==> r == Some(&self@[0]),
    {
        if self.data2.len() == 0 {
            if self.data1.len() == 0 {
                None
            } else {
                proof {
                    assert(self@[0] == values(self.data1@)[0]);
                }
                Some(&self.data1[0].0)
            }
        } else {
            proof {
                assert(self@[0] == values(self.data2@).reverse()[0]);
            }
            Some(&self.data2[self.data2.len() - 1].0)
        }
    }

    /// The least element.
    pub fn min(&self) -> (r: Option<&i64>)
        requires
            self.wf(),
        ensures
            self@.len() == 0 ==> r is None,
            self@.len() > 0 ==> (r matches Some(m) && is_min(*m, self@)),
    {
        let ghost v1 = values(self.data1@);
        let ghost v2 = values(self.data2@);
        let n1 = self.data1.len();
        let n2 = self.data2.len();
        proof {
            if n1 > 0 {
                assert(v1.take(n1 as int) =~= v1);
            }
            if n2 > 0 {
                assert(v2.take(n2 as int) =~= v2);
            }
        }
        if n1 == 0 && n2 == 0 {
            proof {
                assert(self@ =~= Seq::<i64>::empty());
            }
            None
        } else if n1 == 0 {
            let m = &self.data2[n2 - 1].1;
            proof {
                assert(self@ =~= v2.reverse() + v1);
                assert(is_min(*m, v2));
                let j = choose|j: int| 0 <= j < v2.len() && v2[j] == *m;
                assert(self@[n2 - 1 - j] == *m);
                assert forall|k: int| 0 <= k < self@.len() implies *m <= #[trigger] self@[k] by {
                    assert(self@[k] == v2[n2 - 1 - k]);
                }
            }
            Some(m)
        } else if n2 == 0 {
            let m = &self.data1[n1 - 1].1;
            proof {
                assert(self@ =~= v2.reverse() + v1);
                assert(is_min(*m, v1));
                let j = choose|j: int| 0 <= j < v1.len() && v1[j] == *m;
                assert(self@[j] == *m);
                assert forall|k: int| 0 <= k < self@.len() implies *m <= #[trigger] self@[k] by {
                    assert(self@[k] == v1[k]);
                }
            }
            Some(m)
        } else {
            let a = &self.data2[n2 - 1].1;
            let b = &self.data1[n1 - 1].1;
            let m = if *a <= *b {
                a
            } else {
                b
            };
            proof {
                assert(is_min(*a, v2));
                assert(is_min(*b, v1));
                let ja = choose|j: int| 0 <= j < v2.len() && v2[j] == *a;
                let jb = choose|j: int| 0 <= j < v1.len() && v1[j] == *b;
                assert(self@[n2 - 1 - ja] == *a);
                assert(self@[n2 + jb] == *b);
                assert forall|k: int| 0 <= k < self@.len() implies *m <= #[trigger] self@[k] by {
                    if k < n2 {
                        assert(self@[k] == v2[n2 - 1 - k]);
                    } else {
                        assert(self@[k] == v1[k - n2]);
                    }
                }
            }
            Some(m)
        }
    }

    pub fn len(&self) -> (r: usize)
        requires
            self.wf(),
        ensures
            r == self@.len(),
    {
        self.data1.len() + self.data2.len()
    }

    pub fn is_empty(&self) -> (r: bool)
        ensures
            r == (self@.len() == 0),
    {
        self.data1.len() == 0 && self.data2.len() == 0
    }
}

} // verus!
