//! A trie over the characters of string keys. The nodes live in one vector;
//! each node lists its children by character and index, and every child
//! comes after its parent.

use vstd::prelude::*;
use crate::trie_key::ToKeyIter;

verus! {

pub struct TrieNode<V> {
    is_terminal_: bool,
    jumps_: Vec<(char, usize)>,
    value_: Option<V>,
}

impl<V: Copy> TrieNode<V> {
    /// Whether a key ends at this node.
    pub closed spec fn terminal(&self) -> bool {
        self.is_terminal_
    }

    /// The children: a character and the index of the node it leads to.
    pub closed spec fn jumps(&self) -> Seq<(char, usize)> {
        self.jumps_@
    }

    /// The value stored at this node.
    pub closed spec fn value(&self) -> Option<V> {
        self.value_
    }

    /// A terminal node has a value.
    pub open spec fn wf(&self) -> bool {
        self.terminal() ==> self.value() is Some
    }

    pub fn new() -> (r: Self)
        ensures
            r.wf(),
            !r.terminal(),
            r.jumps() == Seq::<(char, usize)>::empty(),
            r.value() is None,
    {
        TrieNode { is_terminal_: false, jumps_: Vec::new(), value_: None }
    }

    /// Stores `v` and makes the node terminal; returns the value it held if
    /// it was terminal.
    pub fn set_value(&mut self, v: V) -> (r: Option<V>)
        requires
            old(self).wf(),
        ensures
            final(self).wf(),
            final(self).terminal(),
            final(self).value() == Some(v),
            final(self).jumps() == old(self).jumps(),
            r == (if old(self).terminal() {
                old(self).value()
            } else {
                None
            }),
    {
        if self.is_terminal_ {
            let prev_val = self.value_;
            self.value_ = Some(v);
            prev_val
        } else {
            self.is_terminal_ = true;
            self.value_ = Some(v);
            None
        }
    }

    /// The child reached by `c`: the first child listed with it.
    pub fn get_next_jump(&self, c: char) -> (r: Option<usize>)
        ensures
            r matches Some(j) ==> exists|k: int|
                0 <= k < self.jumps().len() && #[trigger] self.jumps()[k] == (c, j),
            r is None ==> forall|k: int| 0 <= k < self.jumps().len() ==> (#[trigger] self.jumps()[k]).0 != c,
    {
        let mut k: usize = 0;
        while k < self.jumps_.len()
            invariant
                k <= self.jumps_@.len(),
                forall|i: int| 0 <= i < k ==> (#[trigger] self.jumps_@[i]).0 != c,
            decreases self.jumps_@.len() - k,
        {
            let (d, j) = self.jumps_[k];
            if d == c {
                proof {
                    assert(self.jumps()[k as int] == (c, j));
                }
                return Some(j);
            }
            k += 1;
        }
        None
    }

    pub fn is_terminal(&self) -> (r: bool)
        ensures
            r == self.terminal(),
    {
        self.is_terminal_
    }

    /// The value, when the node is terminal.
    pub fn get_value(&self) -> (r: Option<&V>)
        requires
            self.wf(),
        ensures
            self.terminal() ==> r == Some(&self.value()->Some_0),
            !self.terminal() ==> r is None,
    {
        if self.is_terminal_ {
            match &self.value_ {
                Some(v) => Some(v),
                None => None,
            }
        } else {
            None
        }
    }

    /// The value, to be changed in place, when the node is terminal.
    pub fn get_mut_value(&mut self) -> (r: Option<&mut V>)
        requires
            old(self).wf(),
        ensures
            old(self).terminal() ==> (r matches Some(v) && *v == old(self).value()->Some_0
                && final(self).value() == Some(*final(v))),
            !old(self).terminal() ==> r is None && *final(self) == *old(self),
            final(self).terminal() == old(self).terminal(),
            final(self).jumps() == old(self).jumps(),
            final(self).wf(),
    {
        if self.is_terminal_ {
            match &mut self.value_ {
                Some(v) => Some(v),
                None => None,
            }
        } else {
            None
        }
    }

    /// Whether the node has no children.
    pub fn is_empty(&self) -> (r: bool)
        ensures
            r == (self.jumps().len() == 0),
    {
        self.jumps_.len() == 0
    }
}


/// The number of terminal nodes in the subtree of node `i`, following the
/// children.
pub open spec fn subtree_count<V: Copy>(nodes: Seq<TrieNode<V>>, i: int) -> nat
    decreases nodes.len() - i, nodes[i].jumps().len() + 1,
{
    if 0 <= i < nodes.len() {
        (if nodes[i].terminal() {
            1nat
        } else {
            0nat
        }) + children_count(nodes, i, nodes[i].jumps().len() as int)
    } else {
        0
    }
}

/// The number of terminal nodes in the subtrees of the first `k` children of
/// node `i`.
pub open spec fn children_count<V: Copy>(nodes: Seq<TrieNode<V>>, i: int, k: int) -> nat
    decreases nodes.len() - i, k,
{
    if k <= 0 || !(0 <= i < nodes.len()) || k > nodes[i].jumps().len() {
        0
    } else {
        let j = nodes[i].jumps()[k - 1].1 as int;
        children_count(nodes, i, k - 1) + if i < j < nodes.len() {
            subtree_count(nodes, j)
        } else {
            0
        }
    }
}

/// `a` is a prefix of `b`.
pub open spec fn is_prefix(a: Seq<char>, b: Seq<char>) -> bool {
    a.len() <= b.len() && b.take(a.len() as int) == a
}

/// The nodes below `i` (with `i` itself): those whose path extends its path.
pub open spec fn desc(ps: Seq<Seq<char>>, n: int, i: int) -> Set<int> {
    Set::new(|x: int| 0 <= x < n && is_prefix(ps[i], ps[x]))
}

/// The nodes below the first `k` children of `i`.
pub open spec fn child_union<V: Copy>(nodes: Seq<TrieNode<V>>, ps: Seq<Seq<char>>, i: int, k: int) -> Set<int> {
    Set::new(
        |x: int|
            exists|m: int|
                0 <= m < k && #[trigger] desc(ps, nodes.len() as int, nodes[i].jumps()[m].1 as int).contains(
                    x,
                ),
    )
}

/// The terminal nodes among `s`.
pub open spec fn terminals<V: Copy>(nodes: Seq<TrieNode<V>>, s: Set<int>) -> Set<int> {
    s.filter(|x: int| nodes[x].terminal())
}

/// Counting more children counts no fewer nodes.
pub proof fn lemma_children_count_mono<V: Copy>(nodes: Seq<TrieNode<V>>, i: int, k: int, l: int)
    requires
        0 <= k <= l <= nodes[i].jumps().len(),
    ensures
        children_count(nodes, i, k) <= children_count(nodes, i, l),
    decreases l - k,
{
    if k < l {
        lemma_children_count_mono(nodes, i, k, l - 1);
    }
}

/// A trie mapping strings to values.
pub struct Trie<V> {
    nodes: Vec<TrieNode<V>>,
    paths: Ghost<Seq<Seq<char>>>,
    parents: Ghost<Seq<(int, int)>>,
}

impl<V: Copy> Trie<V> {
    /// The nodes, root first.
    pub closed spec fn nodes(&self) -> Seq<TrieNode<V>> {
        self.nodes@
    }

    /// The path of characters from the root to each node.
    pub closed spec fn paths(&self) -> Seq<Seq<char>> {
        self.paths@
    }

    /// For each node but the root: its parent and the child's place among
    /// the parent's children.
    pub closed spec fn parents(&self) -> Seq<(int, int)> {
        self.parents@
    }

    /// Some node has the path `p`.
    pub open spec fn has_node(&self, p: Seq<char>) -> bool {
        exists|i: int| 0 <= i < self.nodes().len() && #[trigger] self.paths()[i] == p
    }

    /// The node with the path `p`.
    pub open spec fn node_of(&self, p: Seq<char>) -> int {
        choose|i: int| 0 <= i < self.nodes().len() && #[trigger] self.paths()[i] == p
    }

    /// The keys and their values: the paths of the terminal nodes.
    pub open spec fn contents(&self) -> Map<Seq<char>, V> {
        Map::new(
            |p: Seq<char>| self.has_node(p) && self.nodes()[self.node_of(p)].terminal(),
            |p: Seq<char>| self.nodes()[self.node_of(p)].value()->Some_0,
        )
    }

    pub closed spec fn wf(&self) -> bool {
        let n = self.nodes@.len();
        let ps = self.paths@;
        &&& n >= 1
        &&& ps.len() == n
        &&& ps[0] == Seq::<char>::empty()
        &&& forall|i: int| 0 <= i < n ==> (#[trigger] self.nodes@[i]).wf()
        &&& forall|i: int, k: int|
            0 <= i < n && 0 <= k < self.nodes@[i].jumps().len() ==> {
                let (c, j) = #[trigger] self.nodes@[i].jumps()[k];
                &&& i < j < n
                &&& ps[j as int] == ps[i].push(c)
            }
        &&& forall|i: int, k1: int, k2: int|
            0 <= i < n && 0 <= k1 < k2 < self.nodes@[i].jumps().len() ==> (
            #[trigger] self.nodes@[i].jumps()[k1]).0 != (#[trigger] self.nodes@[i].jumps()[k2]).0
        &&& forall|i: int, j: int| 0 <= i < j < n ==> #[trigger] ps[i] != #[trigger] ps[j]
        &&& self.parents@.len() == n
        &&& forall|j: int| 0 < j < n ==> #[trigger] self.parent_ok(j)
    }

    /// Node `j` is child number `k` of its parent `i`, by its path's last
    /// character.
    pub closed spec fn parent_ok(&self, j: int) -> bool {
        let (i, k) = self.parents@[j];
        &&& self.paths@[j].len() > 0
        &&& 0 <= i < j
        &&& 0 <= k < self.nodes@[i].jumps().len()
        &&& self.nodes@[i].jumps()[k] == (self.paths@[j].last(), j as usize)
        &&& self.paths@[i] == self.paths@[j].drop_last()
    }

    /// The node with a given path is the one found by `node_of`.
    pub proof fn lemma_node_of(&self, i: int)
        requires
            self.wf(),
            0 <= i < self.nodes().len(),
        ensures
            self.has_node(self.paths()[i]),
            self.node_of(self.paths()[i]) == i,
    {
        let p = self.paths()[i];
        assert(self.paths()[i] == p);
        let j = self.node_of(p);
        if j != i {
            if j < i {
                assert(self.paths@[j] != self.paths@[i]);
            } else {
                assert(self.paths@[i] != self.paths@[j]);
            }
        }
    }

    /// Every prefix of a node's path is the path of a node.
    pub proof fn lemma_prefix_closed(&self, j: int, m: int)
        requires
            self.wf(),
            0 <= j < self.nodes().len(),
            0 <= m <= self.paths()[j].len(),
        ensures
            self.has_node(self.paths()[j].take(m)),
        decreases j,
    {
        let p = self.paths()[j];
        if m == p.len() {
            assert(p.take(m) =~= p);
            assert(self.paths()[j] == p.take(m));
        } else {
            assert(j > 0) by {
                if j == 0 {
                    assert(p.len() == 0);
                }
            }
            assert(self.parent_ok(j));
            let (i, k) = self.parents@[j];
            self.lemma_prefix_closed(i, m);
            assert(p.drop_last().take(m) =~= p.take(m));
        }
    }

    /// A node without a child for `c` has no descendant path through `c`.
    pub proof fn lemma_no_child(&self, i: int, c: char)
        requires
            self.wf(),
            0 <= i < self.nodes().len(),
            forall|k: int| 0 <= k < self.nodes()[i].jumps().len() ==> (#[trigger] self.nodes()[i].jumps()[k]).0 != c,
        ensures
            !self.has_node(self.paths()[i].push(c)),
    {
        let p = self.paths()[i].push(c);
        if self.has_node(p) {
            let j = choose|j: int| 0 <= j < self.nodes().len() && #[trigger] self.paths()[j] == p;
            assert(j != 0) by {
                if j == 0 {
                    assert(self.paths@[0].len() == 0);
                }
            }
            assert(self.parent_ok(j));
            let (i2, k) = self.parents@[j];
            assert(p.drop_last() =~= self.paths()[i]);
            self.lemma_node_of(i);
            self.lemma_node_of(i2);
            assert(i2 == i);
            assert(self.nodes()[i].jumps()[k].0 == c);
        }
    }



    /// Well-formedness depends only on the paths, the children and each
    /// node's own well-formedness.
    pub proof fn lemma_same_shape(&self, other: &Self)
        requires
            other.wf(),
            self.paths() == other.paths(),
            self.parents() == other.parents(),
            self.nodes().len() == other.nodes().len(),
            forall|x: int| 0 <= x < self.nodes().len() ==> (#[trigger] self.nodes()[x]).jumps() == other.nodes()[x].jumps(),
            forall|x: int| 0 <= x < self.nodes().len() ==> (#[trigger] self.nodes()[x]).wf(),
        ensures
            self.wf(),
    {
        let n = self.nodes@.len();
        assert forall|i: int, k: int|
            0 <= i < n && 0 <= k < self.nodes@[i].jumps().len() implies {
                let (c, j) = #[trigger] self.nodes@[i].jumps()[k];
                &&& i < j < n
                &&& self.paths@[j as int] == self.paths@[i].push(c)
            } by {
            assert(self.nodes@[i].jumps() == other.nodes@[i].jumps());
            assert(other.nodes@[i].jumps()[k] == self.nodes@[i].jumps()[k]);
        }
        assert forall|i: int, k1: int, k2: int|
            0 <= i < n && 0 <= k1 < k2 < self.nodes@[i].jumps().len() implies (
            #[trigger] self.nodes@[i].jumps()[k1]).0 != (#[trigger] self.nodes@[i].jumps()[k2]).0 by {
            assert(self.nodes@[i].jumps() == other.nodes@[i].jumps());
            assert(other.nodes@[i].jumps()[k1] == self.nodes@[i].jumps()[k1]);
            assert(other.nodes@[i].jumps()[k2] == self.nodes@[i].jumps()[k2]);
        }
        assert forall|j: int| 0 < j < n implies #[trigger] self.parent_ok(j) by {
            assert(other.parent_ok(j));
            let (i, k) = other.parents@[j];
            assert(other.paths@[j].len() > 0);
            assert(self.nodes@[i].jumps() == other.nodes@[i].jumps());
            assert(self.nodes@[i].jumps()[k] == other.nodes@[i].jumps()[k]);
        }
    }


    /// After the value of node `i` (a key's node) is replaced by `v`, the
    /// trie is still well formed and maps the key to `v`.
    pub proof fn lemma_value_changed(&self, old: &Self, i: int, v: V)
        requires
            old.wf(),
            0 <= i < old.nodes().len(),
            old.nodes()[i].terminal(),
            self.nodes().len() == old.nodes().len(),
            self.paths() == old.paths(),
            self.parents() == old.parents(),
            self.nodes()[i].value() == Some(v),
            self.nodes()[i].terminal(),
            self.nodes()[i].jumps() == old.nodes()[i].jumps(),
            forall|x: int| 0 <= x < old.nodes().len() && x != i ==> #[trigger] self.nodes()[x] == old.nodes()[x],
        ensures
            self.wf(),
            self.contents() == old.contents().insert(old.paths()[i], v),
            self.node_paths() == old.node_paths(),
    {
        assert forall|x: int| 0 <= x < self.nodes().len() implies (#[trigger] self.nodes()[x]).jumps()
            == old.nodes()[x].jumps() by {
            if x != i {
                assert(self.nodes()[x] == old.nodes()[x]);
            }
        }
        assert forall|x: int| 0 <= x < self.nodes().len() implies (#[trigger] self.nodes()[x]).wf() by {
            if x != i {
                assert(self.nodes()[x] == old.nodes()[x]);
                assert(old.nodes@[x].wf());
            }
        }
        self.lemma_same_shape(old);
        assert forall|p: Seq<char>| self.has_node(p) <==> old.has_node(p) by {}
        assert(self.node_paths() =~= old.node_paths());
        old.lemma_node_of(i);
        assert forall|p: Seq<char>| #[trigger] self.contents().contains_key(p) <==> old.contents().insert(
            old.paths()[i],
            v,
        ).contains_key(p) by {
            if self.has_node(p) {
                let j = self.node_of(p);
                self.lemma_node_of(j);
                old.lemma_node_of(j);
                if j != i {
                    assert(self.nodes()[j] == old.nodes()[j]);
                }
            }
        }
        assert forall|p: Seq<char>| #[trigger] self.contents().contains_key(p) implies self.contents()[p]
            == old.contents().insert(old.paths()[i], v)[p] by {
            let j = self.node_of(p);
            self.lemma_node_of(j);
            old.lemma_node_of(j);
            if j != i {
                assert(self.nodes()[j] == old.nodes()[j]);
            }
        }
        assert(self.contents() =~= old.contents().insert(old.paths()[i], v));
    }

    /// The terminal nodes below `i` are counted exactly once each.
    pub proof fn lemma_count_desc(&self, i: int)
        requires
            self.wf(),
            0 <= i < self.nodes().len(),
        ensures
            desc(self.paths(), self.nodes().len() as int, i).finite(),
            subtree_count(self.nodes(), i) == terminals(self.nodes(), desc(self.paths(), self.nodes().len() as int, i)).len(),
        decreases self.nodes().len() - i, self.nodes()[i].jumps().len() + 1,
    {
        let nodes = self.nodes();
        let n = nodes.len() as int;
        let ps = self.paths();
        let l = nodes[i].jumps().len() as int;
        let d = desc(ps, n, i);
        vstd::set_lib::lemma_int_range(0, n);
        assert(d.subset_of(vstd::set_lib::set_int_range(0, n)));
        vstd::set_lib::lemma_len_subset(d, vstd::set_lib::set_int_range(0, n));
        self.lemma_children_union(i, l);
        self.lemma_children_cover(i);
        let u = child_union(nodes, ps, i, l);
        assert(ps[i].take(ps[i].len() as int) =~= ps[i]);
        assert(d.contains(i));
        assert(u =~= d.remove(i));
        let tu = terminals(nodes, u);
        u.lemma_len_filter(|x: int| nodes[x].terminal());
        if nodes[i].terminal() {
            assert(terminals(nodes, d) =~= tu.insert(i));
        } else {
            assert(terminals(nodes, d) =~= tu);
        }
    }

    /// Every node strictly below `i` is below one of its children.
    pub proof fn lemma_children_cover(&self, i: int)
        requires
            self.wf(),
            0 <= i < self.nodes().len(),
        ensures
            desc(self.paths(), self.nodes().len() as int, i).remove(i).subset_of(
                child_union(self.nodes(), self.paths(), i, self.nodes()[i].jumps().len() as int),
            ),
    {
        let nodes = self.nodes();
        let n = nodes.len() as int;
        let ps = self.paths();
        let l = nodes[i].jumps().len() as int;
        assert forall|x: int| desc(ps, n, i).remove(i).contains(x) implies child_union(nodes, ps, i, l).contains(x) by {
            let h = ps[i].len() as int;
            assert(ps[x].take(h) == ps[i]);
            if ps[x].len() == h {
                assert(ps[x] =~= ps[x].take(h));
                if x < i {
                    assert(ps[x] != ps[i]);
                } else {
                    assert(ps[i] != ps[x]);
                }
            }
            self.lemma_prefix_closed(x, h + 1);
            let q = ps[x].take(h + 1);
            let y = self.node_of(q);
            assert(ps[y] == q);
            assert(y != 0) by {
                if y == 0 {
                    assert(ps[0].len() == 0);
                }
            }
            assert(self.parent_ok(y));
            let (i2, k) = self.parents@[y];
            assert(q.drop_last() =~= ps[i]);
            self.lemma_node_of(i);
            self.lemma_node_of(i2);
            assert(i2 == i);
            let (c2, yy) = nodes[i].jumps()[k];
            assert(c2 == q.last());
            assert(ps[yy as int] == ps[i].push(c2));
            assert(ps[i].push(c2) =~= q);
            assert(desc(ps, n, yy as int).contains(x));
        }
    }

    /// The children's subtrees are disjoint and strictly below `i`; their
    /// terminal nodes are counted exactly once each.
    pub proof fn lemma_children_union(&self, i: int, k: int)
        requires
            self.wf(),
            0 <= i < self.nodes().len(),
            0 <= k <= self.nodes()[i].jumps().len(),
        ensures
            child_union(self.nodes(), self.paths(), i, k).finite(),
            children_count(self.nodes(), i, k) == terminals(self.nodes(), child_union(self.nodes(), self.paths(), i, k)).len(),
            child_union(self.nodes(), self.paths(), i, k).subset_of(
                desc(self.paths(), self.nodes().len() as int, i).remove(i),
            ),
        decreases self.nodes().len() - i, k,
    {
        let nodes = self.nodes();
        let n = nodes.len() as int;
        let ps = self.paths();
        let u = child_union(nodes, ps, i, k);
        vstd::set_lib::lemma_int_range(0, n);
        assert(u.subset_of(vstd::set_lib::set_int_range(0, n)));
        vstd::set_lib::lemma_len_subset(u, vstd::set_lib::set_int_range(0, n));
        assert forall|x: int| u.contains(x) implies desc(ps, n, i).remove(i).contains(x) by {
            let m = choose|m: int|
                0 <= m < k && #[trigger] desc(ps, n, nodes[i].jumps()[m].1 as int).contains(x);
            let (c, j) = nodes[i].jumps()[m];
            assert(ps[j as int] == ps[i].push(c));
            assert(is_prefix(ps[j as int], ps[x]));
            assert(ps[x].take(ps[i].len() as int) =~= ps[j as int].take(ps[i].len() as int));
            assert(ps[i].push(c).take(ps[i].len() as int) =~= ps[i]);
            assert(x != i);
        }
        if k > 0 {
            let (c, j) = nodes[i].jumps()[k - 1];
            let j = j as int;
            assert(i < j < n);
            self.lemma_children_union(i, k - 1);
            self.lemma_count_desc(j);
            let u0 = child_union(nodes, ps, i, k - 1);
            let dj = desc(ps, n, j);
            assert(u =~= u0 + dj) by {
                assert forall|x: int| u.contains(x) implies (u0 + dj).contains(x) by {
                    let m = choose|m: int|
                        0 <= m < k && #[trigger] desc(ps, n, nodes[i].jumps()[m].1 as int).contains(x);
                    if m < k - 1 {
                        assert(u0.contains(x));
                    }
                }
                assert forall|x: int| (u0 + dj).contains(x) implies u.contains(x) by {
                    if dj.contains(x) {
                        assert(desc(ps, n, nodes[i].jumps()[k - 1].1 as int).contains(x));
                    } else {
                        let m = choose|m: int|
                            0 <= m < k - 1 && #[trigger] desc(ps, n, nodes[i].jumps()[m].1 as int).contains(x);
                        assert(desc(ps, n, nodes[i].jumps()[m].1 as int).contains(x));
                    }
                }
            }
            assert(u0.disjoint(dj)) by {
                assert forall|x: int| u0.contains(x) implies !dj.contains(x) by {
                    let m = choose|m: int|
                        0 <= m < k - 1 && #[trigger] desc(ps, n, nodes[i].jumps()[m].1 as int).contains(x);
                    let (cm, jm) = nodes[i].jumps()[m];
                    assert(cm != c);
                    assert(ps[jm as int] == ps[i].push(cm));
                    if dj.contains(x) {
                        let h = ps[i].len() as int;
                        assert(ps[x].take(h + 1) == ps[i].push(cm));
                        assert(ps[x].take(h + 1) == ps[i].push(c));
                        assert(ps[i].push(cm)[h] == cm);
                        assert(ps[i].push(c)[h] == c);
                    }
                }
            }
            let t0 = terminals(nodes, u0);
            let tj = terminals(nodes, dj);
            u0.lemma_len_filter(|x: int| nodes[x].terminal());
            dj.lemma_len_filter(|x: int| nodes[x].terminal());
            assert(terminals(nodes, u) =~= t0 + tj);
            assert(t0.disjoint(tj));
            vstd::set_lib::lemma_set_disjoint_lens(t0, tj);
        } else {
            assert(u =~= Set::<int>::empty());
            assert(terminals(nodes, u) =~= Set::<int>::empty());
        }
    }


    /// The number of terminal nodes below `node` (itself included).
    pub fn recursive_len(&self, node: usize) -> (r: usize)
        requires
            self.wf(),
            node < self.nodes().len(),
        ensures
            r == subtree_count(self.nodes(), node as int),
            r == self.keys_below(self.paths()[node as int]).len(),
        decreases self.nodes().len() - node,
    {
        let total = self.nodes.len();
        proof {
            self.lemma_keys_below(node as int);
            self.lemma_count_desc(node as int);
            let d = desc(self.paths(), total as int, node as int);
            d.lemma_len_filter(|x: int| self.nodes()[x].terminal());
            vstd::set_lib::lemma_int_range(0, total as int);
            assert(d.subset_of(vstd::set_lib::set_int_range(0, total as int)));
            vstd::set_lib::lemma_len_subset(d, vstd::set_lib::set_int_range(0, total as int));
        }
        let ghost nodes = self.nodes();
        let ghost t: nat = if nodes[node as int].terminal() {
            1
        } else {
            0
        };
        let ghost l = nodes[node as int].jumps().len() as int;
        let mut len: usize = if self.nodes[node].is_terminal() {
            1
        } else {
            0
        };
        let mut k: usize = 0;
        while k < self.nodes[node].jumps_.len()
            invariant
                self.wf(),
                nodes == self.nodes(),
                node < total,
                total == nodes.len(),
                l == nodes[node as int].jumps().len(),
                k <= l,
                t + children_count(nodes, node as int, l) == subtree_count(nodes, node as int),
                subtree_count(nodes, node as int) <= total,
                len == t + children_count(nodes, node as int, k as int),
            decreases l - k,
        {
            let (_c, j) = self.nodes[node].jumps_[k];
            proof {
                assert(nodes[node as int].jumps()[k as int].1 == j);
                assert(node < j < total);
                lemma_children_count_mono(nodes, node as int, k + 1, l);
            }
            if !self.nodes[j].is_empty() {
                let sub = self.recursive_len(j);
                len = len + sub;
            } else {
                proof {
                    assert(children_count(nodes, j as int, nodes[j as int].jumps().len() as int) == 0);
                    assert(subtree_count(nodes, j as int) == if nodes[j as int].terminal() {
                        1nat
                    } else {
                        0nat
                    });
                    assert(children_count(nodes, node as int, k + 1) == children_count(nodes, node as int, k as int)
                        + subtree_count(nodes, j as int));
                }
                len = len + if self.nodes[j].is_terminal() {
                    1
                } else {
                    0
                };
            }
            k += 1;
        }
        len
    }

    /// Whether some terminal node lies below `node` (itself included).
    pub fn has_at_least_one_terminal(&self, node: usize) -> (r: bool)
        requires
            self.wf(),
            node < self.nodes().len(),
        ensures
            r == (subtree_count(self.nodes(), node as int) > 0),
            r == (self.keys_below(self.paths()[node as int]).len() > 0),
        decreases self.nodes().len() - node,
    {
        proof {
            self.lemma_keys_below(node as int);
        }
        let ghost nodes = self.nodes();
        let ghost l = nodes[node as int].jumps().len() as int;
        if self.nodes[node].is_terminal_ {
            return true;
        }
        let mut k: usize = 0;
        while k < self.nodes[node].jumps_.len()
            invariant
                self.wf(),
                nodes == self.nodes(),
                node < nodes.len(),
                !nodes[node as int].terminal(),
                l == nodes[node as int].jumps().len(),
                k <= l,
                children_count(nodes, node as int, k as int) == 0,
                subtree_count(nodes, node as int) == self.keys_below(self.paths()[node as int]).len(),
            decreases l - k,
        {
            let (_c, j) = self.nodes[node].jumps_[k];
            proof {
                assert(nodes[node as int].jumps()[k as int].1 == j);
                lemma_children_count_mono(nodes, node as int, k + 1, l);
            }
            if !self.nodes[j].is_empty() {
                if self.has_at_least_one_terminal(j) {
                    return true;
                }
            } else {
                if self.nodes[j].is_terminal_ {
                    return true;
                }
            }
            k += 1;
        }
        false
    }


    /// The keys that start with `p`.
    pub open spec fn keys_below(&self, p: Seq<char>) -> Set<Seq<char>> {
        self.contents().dom().filter(|q: Seq<char>| is_prefix(p, q))
    }

    /// The terminal nodes below node `i` are the keys that start with its
    /// path.
    pub proof fn lemma_keys_below(&self, i: int)
        requires
            self.wf(),
            0 <= i < self.nodes().len(),
        ensures
            self.keys_below(self.paths()[i]).finite(),
            subtree_count(self.nodes(), i) == self.keys_below(self.paths()[i]).len(),
    {
        let nodes = self.nodes();
        let n = nodes.len() as int;
        let ps = self.paths();
        self.lemma_count_desc(i);
        let d = desc(ps, n, i);
        let t = terminals(nodes, d);
        d.lemma_len_filter(|x: int| nodes[x].terminal());
        let f = |x: int| ps[x];
        let kb = self.keys_below(ps[i]);
        assert(vstd::relations::injective_on(f, t)) by {
            assert forall|x1: int, x2: int| t.contains(x1) && t.contains(x2) && #[trigger] f(x1) == #[trigger] f(x2)
                implies x1 == x2 by {
                if x1 < x2 {
                    assert(ps[x1] != ps[x2]);
                } else if x2 < x1 {
                    assert(ps[x2] != ps[x1]);
                }
            }
        }
        assert forall|q: Seq<char>| t.map(f).contains(q) implies kb.contains(q) by {
            let x = choose|x: int| t.contains(x) && f(x) == q;
            self.lemma_node_of(x);
        }
        assert forall|q: Seq<char>| kb.contains(q) implies t.map(f).contains(q) by {
            let x = self.node_of(q);
            assert(ps[x] == q);
            assert(t.contains(x) && f(x) == q);
        }
        assert(t.map(f) =~= kb);
        vstd::set_lib::lemma_map_size(t, kb, f);
    }

    /// Some key starts with `key` exactly when `key` leads to a node with a
    /// terminal node below it.
    pub proof fn lemma_starts_with(&self, key: Seq<char>)
        requires
            self.wf(),
        ensures
            (self.has_node(key) && subtree_count(self.nodes(), self.node_of(key)) > 0) == (exists|p: Seq<char>|
                #[trigger] self.contents().contains_key(p) && is_prefix(key, p)),
    {
        if self.has_node(key) {
            let i = self.node_of(key);
            self.lemma_keys_below(i);
            let kb = self.keys_below(key);
            if exists|p: Seq<char>| #[trigger] self.contents().contains_key(p) && is_prefix(key, p) {
                let p = choose|p: Seq<char>| #[trigger] self.contents().contains_key(p) && is_prefix(key, p);
                assert(kb.contains(p));
                assert(kb.remove(p).len() + 1 == kb.len());
            } else {
                assert(kb =~= Set::<Seq<char>>::empty());
            }
        } else {
            if exists|p: Seq<char>| #[trigger] self.contents().contains_key(p) && is_prefix(key, p) {
                let p = choose|p: Seq<char>| #[trigger] self.contents().contains_key(p) && is_prefix(key, p);
                let x = self.node_of(p);
                self.lemma_prefix_closed(x, key.len() as int);
                assert(p.take(key.len() as int) == key);
            }
        }
    }

    /// The paths that have a node.
    pub open spec fn node_paths(&self) -> Set<Seq<char>> {
        Set::new(|p: Seq<char>| self.has_node(p))
    }

    /// A trie with just the root, holding no key.
    pub fn new() -> (r: Self)
        ensures
            r.wf(),
            r.contents() == Map::<Seq<char>, V>::empty(),
            r.node_paths() == set![Seq::<char>::empty()],
            r.nodes().len() == 1,
    {
        let mut nodes: Vec<TrieNode<V>> = Vec::new();
        nodes.push(TrieNode::new());
        let ghost ps: Seq<Seq<char>> = seq![Seq::<char>::empty()];
        let ghost par: Seq<(int, int)> = seq![(0int, 0int)];
        let r = Trie { nodes, paths: Ghost(ps), parents: Ghost(par) };
        proof {
            assert(r.contents() =~= Map::<Seq<char>, V>::empty());
            assert forall|p: Seq<char>| r.node_paths().contains(p) <==> set![Seq::<char>::empty()].contains(p) by {
                if p == Seq::<char>::empty() {
                    assert(r.paths()[0] == p);
                }
            }
            assert(r.node_paths() =~= set![Seq::<char>::empty()]);
        }
        r
    }

    /// Whether the root has no children: whether no key other than the empty
    /// one was ever inserted.
    pub fn is_empty(&self) -> (r: bool)
        requires
            self.wf(),
        ensures
            r == (self.node_paths() == set![Seq::<char>::empty()]),
            r == (self.nodes().len() == 1),
    {
        proof {
            if self.nodes().len() > 1 {
                assert(self.parent_ok(1));
                let (i, k) = self.parents@[1];
                assert(self.node_paths().contains(self.paths()[1]));
                assert(!set![Seq::<char>::empty()].contains(self.paths()[1]));
                assert(self.nodes@[0].jumps().len() > 0);
            } else {
                if self.nodes@[0].jumps().len() > 0 {
                    let (c, j) = self.nodes@[0].jumps()[0];
                    assert(0 < j < self.nodes@.len());
                }
                assert forall|p: Seq<char>| self.node_paths().contains(p) <==> set![Seq::<char>::empty()].contains(
                    p,
                ) by {
                    if p == Seq::<char>::empty() {
                        assert(self.paths()[0] == p);
                    }
                }
                assert(self.node_paths() =~= set![Seq::<char>::empty()]);
            }
        }
        self.nodes[0].is_empty()
    }

    /// The number of keys; 0 when the root has no children (even when the
    /// empty key is present).
    pub fn len(&self) -> (r: usize)
        requires
            self.wf(),
        ensures
            self.node_paths() == set![Seq::<char>::empty()] ==> r == 0,
            self.node_paths() != set![Seq::<char>::empty()] ==> r == self.contents().dom().len(),
            self.contents().dom().finite(),
    {
        proof {
            self.lemma_keys_below(0);
            assert forall|q: Seq<char>| #[trigger] self.contents().dom().contains(q) implies is_prefix(
                self.paths()[0],
                q,
            ) by {
                assert(q.take(0) =~= Seq::<char>::empty());
            }
            assert(self.keys_below(self.paths()[0]) =~= self.contents().dom());
        }
        if self.is_empty() {
            return 0;
        }
        self.recursive_len(0)
    }

    /// The value of `key`.
    pub fn get<K: ToKeyIter + ?Sized>(&self, key: &K) -> (r: Option<&V>)
        requires
            self.wf(),
        ensures
            r == (if self.contents().contains_key(key.key_chars()) {
                Some(&self.contents()[key.key_chars()])
            } else {
                None
            }),
    {
        match self.find(key) {
            None => None,
            Some(i) => {
                proof {
                    self.lemma_node_of(i as int);
                    assert(self.nodes@[i as int].wf());
                }
                self.nodes[i].get_value()
            },
        }
    }

    /// Whether `key` leads to a node that is terminal (`check_for_term`) or
    /// has a terminal node below it.
    pub fn prefix_is_valid<K: ToKeyIter + ?Sized>(&self, key: &K, check_for_term: bool) -> (r: bool)
        requires
            self.wf(),
        ensures
            r == (self.has_node(key.key_chars()) && if check_for_term {
                self.nodes()[self.node_of(key.key_chars())].terminal()
            } else {
                subtree_count(self.nodes(), self.node_of(key.key_chars())) > 0
            }),
            check_for_term ==> r == self.contents().contains_key(key.key_chars()),
            !check_for_term ==> r == exists|p: Seq<char>| #[trigger] self.contents().contains_key(p) && is_prefix(key.key_chars(), p),
    {
        proof {
            self.lemma_starts_with(key.key_chars());
        }
        match self.find(key) {
            None => false,
            Some(i) => {
                proof {
                    self.lemma_node_of(i as int);
                }
                if check_for_term {
                    self.nodes[i].is_terminal()
                } else {
                    self.has_at_least_one_terminal(i)
                }
            },
        }
    }

    /// Whether `key` is a key.
    pub fn contains<K: ToKeyIter + ?Sized>(&self, key: &K) -> (r: bool)
        requires
            self.wf(),
        ensures
            r == self.contents().contains_key(key.key_chars()),
    {
        self.prefix_is_valid(key, true)
    }

    /// Whether some key starts with `key`.
    pub fn starts_with<K: ToKeyIter + ?Sized>(&self, key: &K) -> (r: bool)
        requires
            self.wf(),
        ensures
            r == exists|p: Seq<char>| #[trigger] self.contents().contains_key(p) && is_prefix(key.key_chars(), p),
    {
        self.prefix_is_valid(key, false)
    }

    /// Removes `key`; returns its value. The nodes stay.
    pub fn remove<K: ToKeyIter + ?Sized>(&mut self, key: &K) -> (r: Option<V>)
        requires
            old(self).wf(),
        ensures
            final(self).wf(),
            final(self).contents() == old(self).contents().remove(key.key_chars()),
            final(self).node_paths() == old(self).node_paths(),
            final(self).paths() == old(self).paths(),
            final(self).nodes().len() == old(self).nodes().len(),
            r == (if old(self).contents().contains_key(key.key_chars()) {
                Some(old(self).contents()[key.key_chars()])
            } else {
                None
            }),
    {
        match self.find(key) {
            None => {
                proof {
                    assert(self.contents().remove(key.key_chars()) =~= self.contents());
                }
                None
            },
            Some(i) => {
                proof {
                    self.lemma_node_of(i as int);
                }
                if self.nodes[i].is_terminal() {
                    let v = match self.nodes[i].value_ {
                        Some(v) => v,
                        None => {
                            return None;
                        },
                    };
                    self.nodes[i].is_terminal_ = false;
                    proof {
                        assert(self.nodes@ == old(self).nodes@.update(
                            i as int,
                            TrieNode { is_terminal_: false, ..old(self).nodes@[i as int] },
                        ));
                        assert forall|x: int| 0 <= x < self.nodes@.len() implies (#[trigger] self.nodes@[x]).jumps()
                            == old(self).nodes@[x].jumps() by {}
                        assert forall|x: int| 0 <= x < self.nodes@.len() implies (#[trigger] self.nodes@[x]).wf() by {
                            assert(old(self).nodes@[x].wf());
                        }
                        self.lemma_same_shape(old(self));
                        assert(self.contents() =~= old(self).contents().remove(key.key_chars()));
                        assert(self.node_paths() =~= old(self).node_paths());
                    }
                    Some(v)
                } else {
                    proof {
                        assert(old(self).contents().remove(key.key_chars()) =~= old(self).contents());
                    }
                    None
                }
            },
        }
    }


    /// Adding a child for `c` below `node`, at the end of the vector, keeps
    /// the trie well formed.
    pub proof fn lemma_add_child_wf(&self, old: &Self, node: int, c: char)
        requires
            old.wf(),
            old.nodes().len() < usize::MAX,
            0 <= node < old.nodes().len(),
            forall|k: int| 0 <= k < old.nodes()[node].jumps().len() ==> (#[trigger] old.nodes()[node].jumps()[k]).0 != c,
            self.nodes().len() == old.nodes().len() + 1,
            self.paths() == old.paths().push(old.paths()[node].push(c)),
            self.parents() == old.parents().push((node, old.nodes()[node].jumps().len() as int)),
            forall|x: int| 0 <= x < old.nodes().len() && x != node ==> #[trigger] self.nodes()[x] == old.nodes()[x],
            self.nodes()[node].jumps() == old.nodes()[node].jumps().push((c, old.nodes().len() as usize)),
            self.nodes()[node].terminal() == old.nodes()[node].terminal(),
            self.nodes()[node].value() == old.nodes()[node].value(),
            !self.nodes()[old.nodes().len() as int].terminal(),
            self.nodes()[old.nodes().len() as int].jumps().len() == 0,
        ensures
            self.wf(),
    {
        let n = old.nodes@.len();
        let np = old.paths@[node].push(c);
        old.lemma_no_child(node, c);
        assert forall|x: int| 0 <= x < n + 1 implies (#[trigger] self.nodes@[x]).wf() by {
            if x < n && x != node {
                assert(old.nodes@[x].wf());
            } else if x == node {
                assert(old.nodes@[x].wf());
            }
        }
        assert forall|i: int, k: int|
            0 <= i < n + 1 && 0 <= k < self.nodes@[i].jumps().len() implies {
                let (c2, j) = #[trigger] self.nodes@[i].jumps()[k];
                &&& i < j < n + 1
                &&& self.paths@[j as int] == self.paths@[i].push(c2)
            } by {
            if i == node {
                if k < old.nodes@[i].jumps().len() {
                    assert(self.nodes@[i].jumps()[k] == old.nodes@[i].jumps()[k]);
                    let (c2, j) = old.nodes@[i].jumps()[k];
                    assert(self.paths@[j as int] == old.paths@[j as int]);
                    assert(self.paths@[i] == old.paths@[i]);
                } else {
                    assert(self.nodes@[i].jumps()[k] == (c, n as usize));
                    assert(self.paths@[n as int] == np);
                    assert(self.paths@[i] == old.paths@[i]);
                }
            } else if i < n {
                assert(self.nodes@[i] == old.nodes@[i]);
                let (c2, j) = old.nodes@[i].jumps()[k];
                assert(old.nodes@[i].jumps()[k] == self.nodes@[i].jumps()[k]);
                assert(self.paths@[j as int] == old.paths@[j as int]);
                assert(self.paths@[i] == old.paths@[i]);
            }
        }
        assert forall|i: int, k1: int, k2: int|
            0 <= i < n + 1 && 0 <= k1 < k2 < self.nodes@[i].jumps().len() implies (
            #[trigger] self.nodes@[i].jumps()[k1]).0 != (#[trigger] self.nodes@[i].jumps()[k2]).0 by {
            if i == node {
                assert(self.nodes@[i].jumps()[k1] == old.nodes@[i].jumps()[k1]);
                if k2 < old.nodes@[i].jumps().len() {
                    assert(self.nodes@[i].jumps()[k2] == old.nodes@[i].jumps()[k2]);
                }
            } else if i < n {
                assert(self.nodes@[i] == old.nodes@[i]);
            }
        }
        assert forall|i: int, j: int| 0 <= i < j < n + 1 implies #[trigger] self.paths@[i] != #[trigger] self.paths@[j] by {
            if j == n {
                assert(self.paths@[i] == old.paths@[i]);
                if old.paths@[i] == np {
                    assert(old.has_node(np));
                }
            } else {
                assert(self.paths@[i] == old.paths@[i]);
                assert(self.paths@[j] == old.paths@[j]);
            }
        }
        assert forall|j: int| 0 < j < n + 1 implies #[trigger] self.parent_ok(j) by {
            if j == n {
                let k = old.nodes@[node].jumps().len() as int;
                assert(self.nodes@[node].jumps()[k] == (c, n as usize));
                assert(np.drop_last() =~= old.paths@[node]);
                assert(self.paths@[node] == old.paths@[node]);
            } else {
                assert(self.paths@[j] == old.paths@[j]);
                assert(self.parents@[j] == old.parents@[j]);
                assert(old.parent_ok(j));
                let (i, k) = old.parents@[j];
                assert(old.paths@[j].len() > 0);
                assert(self.paths@[i] == old.paths@[i]);
                if i == node {
                    assert(self.nodes@[i].jumps()[k] == old.nodes@[i].jumps()[k]);
                } else {
                    assert(self.nodes@[i] == old.nodes@[i]);
                }
            }
        }
    }

    /// Adding a child for `c` below `node`, at the end of the vector, keeps
    /// the trie well formed and its keys; the new path joins the nodes.
    pub proof fn lemma_add_child(&self, old: &Self, node: int, c: char)
        requires
            old.wf(),
            old.nodes().len() < usize::MAX,
            0 <= node < old.nodes().len(),
            forall|k: int| 0 <= k < old.nodes()[node].jumps().len() ==> (#[trigger] old.nodes()[node].jumps()[k]).0 != c,
            self.nodes().len() == old.nodes().len() + 1,
            self.paths() == old.paths().push(old.paths()[node].push(c)),
            self.parents() == old.parents().push((node, old.nodes()[node].jumps().len() as int)),
            forall|x: int| 0 <= x < old.nodes().len() && x != node ==> #[trigger] self.nodes()[x] == old.nodes()[x],
            self.nodes()[node].jumps() == old.nodes()[node].jumps().push((c, old.nodes().len() as usize)),
            self.nodes()[node].terminal() == old.nodes()[node].terminal(),
            self.nodes()[node].value() == old.nodes()[node].value(),
            !self.nodes()[old.nodes().len() as int].terminal(),
            self.nodes()[old.nodes().len() as int].jumps().len() == 0,
        ensures
            self.wf(),
            self.contents() == old.contents(),
            self.node_paths() == old.node_paths().insert(old.paths()[node].push(c)),
    {
        let n = old.nodes@.len();
        let np = old.paths@[node].push(c);
        self.lemma_add_child_wf(old, node, c);
        assert forall|p: Seq<char>| self.has_node(p) <==> old.has_node(p) || p == np by {
            if self.has_node(p) {
                let i = choose|i: int| 0 <= i < self.nodes().len() && #[trigger] self.paths()[i] == p;
                if i < n {
                    assert(old.paths()[i] == p);
                }
            }
            if old.has_node(p) {
                let i = choose|i: int| 0 <= i < old.nodes().len() && #[trigger] old.paths()[i] == p;
                assert(self.paths()[i] == p);
            }
            if p == np {
                assert(self.paths()[n as int] == p);
            }
        }
        assert(self.node_paths() =~= old.node_paths().insert(np));
        assert forall|p: Seq<char>| #[trigger] self.contents().contains_key(p) <==> old.contents().contains_key(p) by {
            if self.has_node(p) {
                let i = self.node_of(p);
                self.lemma_node_of(i);
                if i < n {
                    assert(old.paths()[i] == p);
                    old.lemma_node_of(i);
                }
            }
            if old.has_node(p) {
                let i = old.node_of(p);
                old.lemma_node_of(i);
                assert(self.paths()[i] == p);
                self.lemma_node_of(i);
            }
        }
        assert forall|p: Seq<char>| #[trigger] self.contents().contains_key(p) implies self.contents()[p] == old.contents()[p] by {
            let i = old.node_of(p);
            old.lemma_node_of(i);
            assert(self.paths()[i] == p);
            self.lemma_node_of(i);
        }
        assert(self.contents() =~= old.contents());
    }

    /// Sets the value of `key`; returns the value it replaced. The nodes of
    /// the key's prefixes that are missing are created.
    pub fn insert<K: ToKeyIter + ?Sized>(&mut self, key: &K, value: V) -> (r: Option<V>)
        requires
            old(self).wf(),
            old(self).nodes().len() + key.key_chars().len() < usize::MAX,
        ensures
            final(self).wf(),
            final(self).contents() == old(self).contents().insert(key.key_chars(), value),
            final(self).node_paths() == old(self).node_paths().union(
                Set::new(|p: Seq<char>| is_prefix(p, key.key_chars())),
            ),
            final(self).nodes().len() <= old(self).nodes().len() + key.key_chars().len(),
            r == (if old(self).contents().contains_key(key.key_chars()) {
                Some(old(self).contents()[key.key_chars()])
            } else {
                None
            }),
    {
        let chars = key.key_iter();
        let n = chars.len();
        let mut node: usize = 0;
        let mut t: usize = 0;
        proof {
            assert(key.key_chars().take(0) =~= Seq::<char>::empty());
            assert(self.paths()[0] == key.key_chars().take(0));
            assert forall|p: Seq<char>| old(self).node_paths().contains(p) || (Set::new(|q: Seq<char>| is_prefix(q, key.key_chars().take(0)))).contains(p) implies #[trigger] self.node_paths().contains(p) by {
                if !old(self).node_paths().contains(p) {
                    assert(p.take(0) =~= p);
                    assert(self.paths()[0] == p);
                }
            }
            assert(self.node_paths() =~= old(self).node_paths().union(
                Set::new(|q: Seq<char>| is_prefix(q, key.key_chars().take(0))),
            ));
        }
        while t < n
            invariant
                self.wf(),
                n == key.key_chars().len(),
                chars@ == key.key_chars(),
                t <= n,
                node < self.nodes@.len(),
                self.nodes@.len() <= old(self).nodes@.len() + t,
                old(self).nodes().len() + key.key_chars().len() < usize::MAX,
                self.paths()[node as int] == key.key_chars().take(t as int),
                self.contents() == old(self).contents(),
                self.node_paths() == old(self).node_paths().union(
                    Set::new(|p: Seq<char>| is_prefix(p, key.key_chars().take(t as int))),
                ),
            decreases n - t,
        {
            let c = chars[t];
            let ghost before = *self;
            proof {
                assert(key.key_chars().take(t + 1) =~= key.key_chars().take(t as int).push(c));
            }
            match self.nodes[node].get_next_jump(c) {
                Some(j) => {
                    proof {
                        let k = choose|k: int|
                            0 <= k < self.nodes@[node as int].jumps().len() && #[trigger] self.nodes@[node as int].jumps()[k]
                                == (c, j);
                        assert(self.nodes@[node as int].jumps()[k] == (c, j));
                    }
                    node = j;
                },
                None => {
                    let new_idx = self.nodes.len();
                    self.nodes.push(TrieNode::new());
                    self.nodes[node].jumps_.push((c, new_idx));
                    proof {
                        self.paths = Ghost(before.paths@.push(before.paths@[node as int].push(c)));
                        self.parents = Ghost(before.parents@.push((node as int, before.nodes@[node as int].jumps().len() as int)));
                        assert(self.nodes@[node as int].jumps() == before.nodes@[node as int].jumps().push(
                            (c, new_idx),
                        ));
                        self.lemma_add_child(&before, node as int, c);
                    }
                    node = new_idx;
                },
            }
            proof {
                assert forall|p: Seq<char>| #[trigger] is_prefix(p, key.key_chars().take(t + 1)) <==> is_prefix(p, key.key_chars().take(t as int))
                    || p == key.key_chars().take(t + 1) by {
                    if is_prefix(p, key.key_chars().take(t + 1)) && p.len() <= t {
                        assert(key.key_chars().take(t as int).take(p.len() as int) =~= key.key_chars().take(t + 1).take(p.len() as int));
                    }
                    if is_prefix(p, key.key_chars().take(t as int)) {
                        assert(key.key_chars().take(t as int).take(p.len() as int) =~= key.key_chars().take(t + 1).take(p.len() as int));
                    }
                    if p == key.key_chars().take(t + 1) {
                        assert(p.take(p.len() as int) =~= p);
                    }
                    if is_prefix(p, key.key_chars().take(t + 1)) && p.len() == t + 1 {
                        assert(key.key_chars().take(t + 1).take(t + 1) =~= key.key_chars().take(t + 1));
                    }
                }
                assert(self.has_node(key.key_chars().take(t + 1))) by {
                    assert(self.paths()[node as int] == key.key_chars().take(t + 1));
                }
                assert(self.node_paths() =~= old(self).node_paths().union(
                    Set::new(|p: Seq<char>| is_prefix(p, key.key_chars().take(t + 1))),
                ));
            }
            t += 1;
        }
        proof {
            assert(key.key_chars().take(n as int) =~= key.key_chars());
            self.lemma_node_of(node as int);
            assert(self.nodes@[node as int].wf());
        }
        let ghost before = *self;
        let r = self.nodes[node].set_value(value);
        proof {
            assert forall|x: int| 0 <= x < self.nodes@.len() implies (#[trigger] self.nodes@[x]).jumps()
                == before.nodes@[x].jumps() by {}
            assert forall|x: int| 0 <= x < self.nodes@.len() implies (#[trigger] self.nodes@[x]).wf() by {
                assert(before.nodes@[x].wf());
            }
            self.lemma_same_shape(&before);
            assert forall|p: Seq<char>| self.has_node(p) <==> before.has_node(p) by {}
            assert(self.node_paths() =~= before.node_paths());
            assert forall|p: Seq<char>| #[trigger] self.contents().contains_key(p) <==> before.contents().insert(key.key_chars(), value).contains_key(p) by {
                if self.has_node(p) {
                    self.lemma_node_of(self.node_of(p));
                    before.lemma_node_of(self.node_of(p));
                }
            }
            assert forall|p: Seq<char>| #[trigger] self.contents().contains_key(p) implies self.contents()[p]
                == before.contents().insert(key.key_chars(), value)[p] by {
                self.lemma_node_of(self.node_of(p));
                before.lemma_node_of(self.node_of(p));
            }
            assert(self.contents() =~= before.contents().insert(key.key_chars(), value));
        }
        r
    }

    /// The value of `key`, to be changed in place: only the value of the
    /// key's node changes (`lemma_value_changed` gives the trie's
    /// well-formedness and contents afterwards).
    pub fn get_mut<K: ToKeyIter + ?Sized>(&mut self, key: &K) -> (r: Option<&mut V>)
        requires
            old(self).wf(),
        ensures
            final(self).nodes().len() == old(self).nodes().len(),
            final(self).paths() == old(self).paths(),
            final(self).parents() == old(self).parents(),
            old(self).contents().contains_key(key.key_chars()) ==> (r matches Some(v) && *v == old(self).contents()[key.key_chars()]
                && final(self).nodes()[old(self).node_of(key.key_chars())].value() == Some(*final(v))
                && final(self).nodes()[old(self).node_of(key.key_chars())].terminal()
                && final(self).nodes()[old(self).node_of(key.key_chars())].jumps() == old(self).nodes()[old(self).node_of(key.key_chars())].jumps()
                && forall|x: int| 0 <= x < old(self).nodes().len() && x != old(self).node_of(key.key_chars()) ==> #[trigger] final(self).nodes()[x] == old(self).nodes()[x]),
            !old(self).contents().contains_key(key.key_chars()) ==> r is None && final(self).nodes() == old(
                self,
            ).nodes(),
    {
        match self.find(key) {
            None => None,
            Some(i) => {
                proof {
                    self.lemma_node_of(i as int);
                    assert(self.nodes@[i as int].wf());
                }
                let r = self.nodes[i].get_mut_value();
                r
            },
        }
    }

    /// The node whose path is `key`, if any.
    fn find<K: ToKeyIter + ?Sized>(&self, key: &K) -> (r: Option<usize>)
        requires
            self.wf(),
        ensures
            r matches Some(i) ==> i < self.nodes().len() && self.paths()[i as int] == key.key_chars(),
            r is None ==> !self.has_node(key.key_chars()),
    {
        let chars = key.key_iter();
        let n = chars.len();
        let mut node: usize = 0;
        let mut t: usize = 0;
        proof {
            assert(key.key_chars().take(0) =~= Seq::<char>::empty());
        }
        while t < n
            invariant
                self.wf(),
                n == key.key_chars().len(),
                chars@ == key.key_chars(),
                t <= n,
                node < self.nodes@.len(),
                self.paths()[node as int] == key.key_chars().take(t as int),
            decreases n - t,
        {
            let c = chars[t];
            match self.nodes[node].get_next_jump(c) {
                Some(j) => {
                    proof {
                        let k = choose|k: int|
                            0 <= k < self.nodes@[node as int].jumps().len() && #[trigger] self.nodes@[node as int].jumps()[k]
                                == (c, j);
                        assert(self.nodes@[node as int].jumps()[k] == (c, j));
                        assert(key.key_chars().take(t + 1) =~= key.key_chars().take(t as int).push(c));
                    }
                    node = j;
                },
                None => {
                    proof {
                        self.lemma_no_child(node as int, c);
                        assert(key.key_chars().take(t + 1) =~= key.key_chars().take(t as int).push(c));
                        if self.has_node(key.key_chars()) {
                            let j = self.node_of(key.key_chars());
                            self.lemma_prefix_closed(j, t + 1);
                        }
                    }
                    return None;
                },
            }
            t += 1;
        }
        proof {
            assert(key.key_chars().take(n as int) =~= key.key_chars());
        }
        Some(node)
    }
}

} // verus!
