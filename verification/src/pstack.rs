//! A persistent stack: pushing and popping give new stacks that share their
//! tails with the old one, which stays as it was.

use vstd::prelude::*;
use std::rc::Rc;

verus! {

/// A shared reference to a value held by a stack.
pub struct PRef<T> {
    value_ref: Rc<T>,
}

impl<T> View for PRef<T> {
    type V = T;

    closed spec fn view(&self) -> T {
        *self.value_ref
    }
}

impl<T> std::ops::Deref for PRef<T> {
    type Target = T;

    fn deref(&self) -> (r: &T)
        ensures
            *r == self@,
    {
        &*self.value_ref
    }
}

impl<T> PRef<T> {
    pub fn new(value: T) -> (r: Self)
        ensures
            r@ == value,
    {
        Self { value_ref: Rc::new(value) }
    }
}

impl<T> Clone for PRef<T> {
    fn clone(&self) -> (r: Self)
        ensures
            r@ == self@,
    {
        Self { value_ref: Rc::clone(&self.value_ref) }
    }
}

/// A stack whose top is `value` and whose rest is `prev_stack`.
pub struct PStack<T> {
    prev_stack: Option<Rc<PStack<T>>>,
    value: Option<PRef<T>>,
    length: usize,
}

impl<T> PStack<T> {
    /// The number of elements the stack records.
    pub closed spec fn depth(&self) -> nat {
        self.length as nat
    }

    /// Well-formedness: an empty stack has neither top nor rest, and a
    /// non-empty one has both, the rest one element shorter.
    pub closed spec fn wf(&self) -> bool
        decreases self.depth(),
    {
        match self.prev_stack {
            None => self.length == 0 && self.value is None,
            Some(p) => {
                &&& self.length > 0
                &&& self.value is Some
                &&& p.length == self.length - 1
                &&& if p.length < self.length {
                    p.wf()
                } else {
                    false
                }
            },
        }
    }

    /// The elements, top first.
    pub closed spec fn items(&self) -> Seq<T>
        decreases self.depth(),
    {
        match (self.prev_stack, self.value) {
            (Some(p), Some(v)) => if p.length < self.length {
                seq![v@] + p.items()
            } else {
                Seq::empty()
            },
            _ => Seq::empty(),
        }
    }

    pub proof fn lemma_len(&self)
        requires
            self.wf(),
        ensures
            self.items().len() == self.depth(),
        decreases self.depth(),
    {
        if let Some(p) = self.prev_stack {
            p.lemma_len();
        }
    }
}

impl<T> View for PStack<T> {
    type V = Seq<T>;

    open spec fn view(&self) -> Seq<T> {
        self.items()
    }
}

impl<T> Clone for PStack<T> {
    fn clone(&self) -> (r: Self)
        ensures
            r.wf() == self.wf(),
            r@ == self@,
            r.depth() == self.depth(),
    {
        Self {
            prev_stack: match &self.prev_stack {
                Some(p) => Some(Rc::clone(p)),
                None => None,
            },
            value: match &self.value {
                Some(v) => Some(v.clone()),
                None => None,
            },
            length: self.length,
        }
    }
}

impl<T> Default for PStack<T> {
    /// The empty stack.
    fn default() -> (r: Self)
        ensures
            r.wf(),
            r@ == Seq::<T>::empty(),
    {
        Self::new()
    }
}

impl<T> PStack<T> {
    pub fn new() -> (r: Self)
        ensures
            r.wf(),
            r@ == Seq::<T>::empty(),
    {
        Self { prev_stack: None, value: None, length: 0 }
    }

    /// The stack with `value` on top of this one.
    pub fn push(&self, value: T) -> (r: Self)
        requires
            self.wf(),
            self@.len() < usize::MAX,
        ensures
            r.wf(),
            r@ == seq![value] + self@,
    {
        proof {
            self.lemma_len();
        }
        let r = Self {
            prev_stack: Some(Rc::new(self.clone())),
            value: Some(PRef::new(value)),
            length: self.length + 1,
        };
        proof {
            assert(r@ =~= seq![value] + self@);
        }
        r
    }

    /// The top and the rest, or `None` on an empty stack.
    pub fn pop(&self) -> (r: Option<(PRef<T>, Self)>)
        requires
            self.wf(),
        ensures
            self@.len() == 0 ==> r is None,
            self@.len() > 0 ==> (r matches Some((v, s)) && v@ == self@[0] && s.wf() && s@
                == self@.drop_first()),
    {
        proof {
            self.lemma_len();
        }
        if self.is_empty() {
            None
        } else {
            match (&self.prev_stack, &self.value) {
                (Some(p), Some(v)) => {
                    proof {
                        assert(self@ =~= seq![v@] + p@);
                    }
                    Some((v.clone(), (**p).clone()))
                },
                _ => None,
            }
        }
    }

    pub fn len(&self) -> (r: usize)
        requires
            self.wf(),
        ensures
            r == self@.len(),
    {
        proof {
            self.lemma_len();
        }
        self.length
    }

    pub fn is_empty(&self) -> (r: bool)
        requires
            self.wf(),
        ensures
            r == (self@.len() == 0),
    {
        proof {
            self.lemma_len();
        }
        self.length == 0
    }

    /// An iterator over the elements, top first.
    pub fn iter(&self) -> (r: PStackIter<T>)
        requires
            self.wf(),
        ensures
            r.wf(),
            r@ == self@,
    {
        PStackIter { current: Rc::new(self.clone()) }
    }
}

/// Walks a stack from its top.
pub struct PStackIter<T> {
    current: Rc<PStack<T>>,
}

impl<T> View for PStackIter<T> {
    type V = Seq<T>;

    /// The elements still to come.
    closed spec fn view(&self) -> Seq<T> {
        (*self.current)@
    }
}

impl<T> PStackIter<T> {
    pub closed spec fn wf(&self) -> bool {
        (*self.current).wf()
    }

    /// The next element, or `None` at the bottom.
    pub fn next(&mut self) -> (r: Option<PRef<T>>)
        requires
            old(self).wf(),
        ensures
            final(self).wf(),
            old(self)@.len() == 0 ==> r is None && final(self)@ == old(self)@,
            old(self)@.len() > 0 ==> (r matches Some(v) && v@ == old(self)@[0] && final(self)@
                == old(self)@.drop_first()),
    {
        if self.current.is_empty() {
            None
        } else {
            let (value, rest) = match self.current.pop() {
                Some(x) => x,
                None => {
                    return None;
                },
            };
            self.current = Rc::new(rest);
            Some(value)
        }
    }
}

} // verus!
