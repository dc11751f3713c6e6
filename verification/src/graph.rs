//! The graph value: registered node names, dense indices, and a
//! symmetric, duplicate-free adjacency store.

use vstd::prelude::*;

use crate::GraphError;

verus! {

/// Every entry of `s` is below `n`.
pub open spec fn seq_in_range(s: Seq<usize>, n: nat) -> bool {
    forall |k: int| 0 <= k < s.len() ==> (#[trigger] s[k]) < n
}

/// No entry of `s` occurs twice.
pub open spec fn seq_nodup(s: Seq<usize>) -> bool {
    forall |k1: int, k2: int|
        #![trigger s[k1], s[k2]]
        0 <= k1 < s.len() && 0 <= k2 < s.len() && k1 != k2 ==> s[k1] != s[k2]
}

/// An undirected graph over string node names.
///
/// Each name registered with [`Graph::add_node`] receives the next dense
/// index, counting from zero; `nodes` maps indices back to names, and
/// `edges` holds one duplicate-free neighbor list per index, kept
/// symmetric by [`Graph::add_edge`].
pub struct Graph {
    /// The name registered at each index, in registration order.
    pub nodes: Vec<String>,
    /// The neighbor indices of each index.
    pub edges: Vec<Vec<usize>>,
}

impl Graph {
    /// How many nodes are registered.
    pub open spec fn spec_node_count(&self) -> nat {
        self.nodes@.len()
    }

    /// Whether `a` is a registered node name.
    pub open spec fn has_node(&self, a: Seq<char>) -> bool {
        exists |i: usize| i < self.nodes@.len() && (#[trigger] self.nodes@[i as int])@ == a
    }

    /// The index registered for the name `a` (meaningful when `has_node(a)`).
    pub open spec fn spec_node_index(&self, a: Seq<char>) -> usize {
        choose |i: usize| i < self.nodes@.len() && (#[trigger] self.nodes@[i as int])@ == a
    }

    /// The name registered at index `i`.
    pub open spec fn name_at(&self, i: usize) -> Seq<char> {
        self.nodes@[i as int]@
    }

    /// Whether index `j` is recorded as a neighbor of index `i`.
    pub open spec fn adj(&self, i: usize, j: usize) -> bool {
        i < self.edges@.len() && self.edges@[i as int]@.contains(j)
    }

    /// Whether an edge joins the names `a` and `b`.
    pub open spec fn spec_edge(&self, a: Seq<char>, b: Seq<char>) -> bool {
        &&& self.has_node(a)
        &&& self.has_node(b)
        &&& self.adj(self.spec_node_index(a), self.spec_node_index(b))
    }

    /// Well-formedness: one adjacency list per node; every entry in
    /// range and duplicate-free per list; adjacency symmetric; all
    /// registered names distinct.
    pub open spec fn wf(&self) -> bool {
        &&& self.edges@.len() == self.nodes@.len()
        &&& forall |i: int| 0 <= i < self.edges@.len()
                ==> seq_in_range((#[trigger] self.edges@[i])@, self.nodes@.len())
        &&& forall |i: int| 0 <= i < self.edges@.len() ==> seq_nodup((#[trigger] self.edges@[i])@)
        &&& forall |i: usize, j: usize| #[trigger] self.adj(i, j) ==> self.adj(j, i)
        &&& forall |i: int, j: int|
                #![trigger self.nodes@[i], self.nodes@[j]]
                0 <= i < self.nodes@.len() && 0 <= j < self.nodes@.len() && i != j
                ==> self.nodes@[i]@ != self.nodes@[j]@
    }

    /// The name registered at index `i` maps back to `i` and to no other index.
    pub proof fn lemma_index_of_name_at(&self, i: usize)
        requires
            self.wf(),
            i < self.nodes@.len(),
        ensures
            self.has_node(self.name_at(i)),
            self.spec_node_index(self.name_at(i)) == i,
    {
        assert(self.has_node(self.name_at(i))) by {
            assert(i < self.nodes@.len() && self.nodes@[i as int]@ == self.name_at(i));
        }
        let j = self.spec_node_index(self.name_at(i));
        assert(j < self.nodes@.len() && self.nodes@[j as int]@ == self.name_at(i));
        if j != i {
            assert(self.nodes@[i as int]@ != self.nodes@[j as int]@);
        }
    }

    /// A registered name's index is in range and carries that name.
    pub proof fn lemma_node_index_valid(&self, a: Seq<char>)
        requires
            self.has_node(a),
        ensures
            self.spec_node_index(a) < self.nodes@.len(),
            self.name_at(self.spec_node_index(a)) == a,
    {
        let i = choose |i: usize| i < self.nodes@.len() && (#[trigger] self.nodes@[i as int])@ == a;
        assert(self.spec_node_index(a) < self.nodes@.len()
            && self.nodes@[self.spec_node_index(a) as int]@ == a);
    }

    /// Symmetry: an edge joins its endpoints in either order, so
    /// [`Graph::contains_edge`] does not depend on argument order.
    pub proof fn lemma_edge_symmetric(&self, a: Seq<char>, b: Seq<char>)
        requires
            self.wf(),
        ensures
            self.spec_edge(a, b) == self.spec_edge(b, a),
    {
        if self.spec_edge(a, b) {
            assert(self.adj(self.spec_node_index(b), self.spec_node_index(a)));
        }
        if self.spec_edge(b, a) {
            assert(self.adj(self.spec_node_index(a), self.spec_node_index(b)));
        }
    }

    /// Makes an empty graph: no nodes, no edges.
    pub fn new() -> (g: Graph)
        ensures
            g.wf(),
            g.spec_node_count() == 0,
            forall |a: Seq<char>| !g.has_node(a),
            forall |a: Seq<char>, b: Seq<char>| !g.spec_edge(a, b),
    {
        Graph { nodes: Vec::new(), edges: Vec::new() }
    }

    /// Linear scan for the index registered for `node`.
    fn find_index(&self, node: &String) -> (r: Option<usize>)
        ensures
            match r {
                Some(i) => i < self.nodes@.len() && self.nodes@[i as int]@ == node@,
                None => !self.has_node(node@),
            },
    {
        let n = self.nodes.len();
        let mut i: usize = 0;
        while i < n
            invariant
                n == self.nodes@.len(),
                i <= n,
                forall |k: int| 0 <= k < i ==> (#[trigger] self.nodes@[k])@ != node@,
            decreases n - i,
        {
            if self.nodes[i] == *node {
                return Some(i);
            }
            i = i + 1;
        }
        None
    }

    /// Whether `node` is registered.
    pub fn contains_node(&self, node: &String) -> (r: bool)
        ensures
            r == self.has_node(node@),
    {
        let found = self.find_index(node);
        proof {
            if found is Some {
                let i = found->Some_0;
                assert(i < self.nodes@.len() && (self.nodes@[i as int])@ == node@);
            }
        }
        found.is_some()
    }

    /// The dense index registered for `node`.
    pub fn get_node_index(&self, node: &String) -> (i: usize)
        requires
            self.wf(),
            self.has_node(node@),
        ensures
            i == self.spec_node_index(node@),
            i < self.spec_node_count(),
            self.name_at(i) == node@,
    {
        match self.find_index(node) {
            Some(i) => {
                proof {
                    self.lemma_node_index_valid(node@);
                    let j = self.spec_node_index(node@);
                    if j != i {
                        assert(self.nodes@[i as int]@ != self.nodes@[j as int]@);
                    }
                }
                i
            }
            None => {
                proof {
                    assert(false);
                }
                0
            }
        }
    }

    /// Registers `node` under the next unused index; a no-op when the
    /// name is already registered, so a second call with the same name
    /// changes nothing and yields the same index.
    pub fn add_node(&mut self, node: String)
        requires
            old(self).wf(),
        ensures
            final(self).wf(),
            final(self).has_node(node@),
            old(self).has_node(node@) ==> *final(self) == *old(self),
            !old(self).has_node(node@) ==> {
                &&& final(self).nodes@ == old(self).nodes@.push(node)
                &&& final(self).spec_node_index(node@) == old(self).nodes@.len()
            },
            forall |a: Seq<char>| #[trigger] old(self).has_node(a) ==> final(self).has_node(a),
            forall |a: Seq<char>| #[trigger] final(self).has_node(a) ==> old(self).has_node(a) || a == node@,
            forall |a: Seq<char>| #[trigger] old(self).has_node(a)
                ==> final(self).spec_node_index(a) == old(self).spec_node_index(a),
            forall |a: Seq<char>, b: Seq<char>|
                #![trigger final(self).spec_edge(a, b)]
                #![trigger old(self).spec_edge(a, b)]
                final(self).spec_edge(a, b) == old(self).spec_edge(a, b),
    {
        if !self.contains_node(&node) {
            let ghost prev = *self;
            let ghost name = node@;
            let n = self.nodes.len();
            self.nodes.push(node);
            self.edges.push(Vec::new());
            proof {
                assert forall |k: int| 0 <= k < prev.nodes@.len()
                    implies (#[trigger] prev.nodes@[k])@ != name by {
                    if prev.nodes@[k]@ == name {
                        let ku = k as usize;
                        assert(prev.has_node(name)) by {
                            assert(ku < prev.nodes@.len() && prev.nodes@[ku as int]@ == name);
                        }
                    }
                }
                assert(self.has_node(name)) by {
                    assert(n < self.nodes@.len() && self.nodes@[n as int]@ == name);
                }
                assert(self.wf()) by {
                    assert forall |i: usize, j: usize| #[trigger] self.adj(i, j)
                        implies self.adj(j, i) by {
                        if i < prev.edges@.len() {
                            assert(prev.adj(i, j));
                            assert(prev.adj(j, i));
                        } else {
                            assert(self.edges@[i as int]@.len() == 0);
                        }
                    }
                }
                self.lemma_index_of_name_at(n);
                assert forall |a: Seq<char>| #[trigger] prev.has_node(a)
                    implies self.has_node(a) && self.spec_node_index(a) == prev.spec_node_index(a) by {
                    prev.lemma_node_index_valid(a);
                    let i = prev.spec_node_index(a);
                    self.lemma_index_of_name_at(i);
                }
                assert forall |a: Seq<char>| #[trigger] self.has_node(a)
                    implies prev.has_node(a) || a == name by {
                    let i = choose |i: usize| i < self.nodes@.len()
                        && (#[trigger] self.nodes@[i as int])@ == a;
                    if i < prev.nodes@.len() {
                        assert(prev.nodes@[i as int]@ == a);
                    }
                }
                assert forall |a: Seq<char>, b: Seq<char>|
                    #![trigger self.spec_edge(a, b)]
                    #![trigger prev.spec_edge(a, b)]
                    self.spec_edge(a, b) == prev.spec_edge(a, b) by {
                    if prev.spec_edge(a, b) {
                        assert(self.adj(self.spec_node_index(a), self.spec_node_index(b)));
                    }
                    if self.spec_edge(a, b) {
                        if a == name || b == name {
                            let ia = self.spec_node_index(a);
                            let ib = self.spec_node_index(b);
                            if ia == n {
                                assert(self.edges@[ia as int]@.len() == 0);
                                assert(!self.adj(ia, ib));
                            } else if ib == n {
                                assert(self.adj(ib, ia));
                                assert(self.edges@[ib as int]@.len() == 0);
                            }
                            assert(false);
                        } else {
                            assert(prev.has_node(a) && prev.has_node(b));
                            assert(prev.adj(prev.spec_node_index(a), prev.spec_node_index(b)));
                        }
                    }
                }
            }
        }
    }

    /// Linear membership scan over one adjacency list.
    fn list_contains(list: &Vec<usize>, x: usize) -> (r: bool)
        ensures
            r == list@.contains(x),
    {
        let n = list.len();
        let mut k: usize = 0;
        while k < n
            invariant
                n == list@.len(),
                k <= n,
                forall |t: int| 0 <= t < k ==> (#[trigger] list@[t]) != x,
            decreases n - k,
        {
            if list[k] == x {
                proof {
                    assert(list@.contains(x)) by {
                        assert(list@[k as int] == x);
                    }
                }
                return true;
            }
            k = k + 1;
        }
        false
    }

    /// Records `j` as a neighbor of `i`, once: a no-op when already recorded.
    fn insert_neighbor(&mut self, i: usize, j: usize)
        requires
            i < old(self).edges@.len(),
            seq_nodup(old(self).edges@[i as int]@),
        ensures
            final(self).nodes@ == old(self).nodes@,
            final(self).edges@.len() == old(self).edges@.len(),
            forall |k: int| 0 <= k < old(self).edges@.len() && k != i
                ==> final(self).edges@[k] == old(self).edges@[k],
            seq_nodup(final(self).edges@[i as int]@),
            final(self).adj(i, j),
            forall |a: usize, b: usize| #[trigger] old(self).adj(a, b) ==> final(self).adj(a, b),
            forall |a: usize, b: usize| #[trigger] final(self).adj(a, b)
                ==> old(self).adj(a, b) || (a == i && b == j),
            old(self).adj(i, j) ==> *final(self) == *old(self),
            !old(self).adj(i, j) ==> final(self).edges@[i as int]@
                == old(self).edges@[i as int]@.push(j),
    {
        let ghost prev = *self;
        if !Self::list_contains(&self.edges[i], j) {
            self.edges[i].push(j);
            proof {
                assert(self.edges@ =~= prev.edges@.update(i as int,
                    self.edges@[i as int]));
                assert(self.edges@[i as int]@ == prev.edges@[i as int]@.push(j));
                assert(self.adj(i, j)) by {
                    let last = prev.edges@[i as int]@.len() as int;
                    assert(self.edges@[i as int]@[last] == j);
                }
                assert(seq_nodup(self.edges@[i as int]@)) by {
                    let s = prev.edges@[i as int]@;
                    assert forall |k1: int, k2: int|
                        #![trigger self.edges@[i as int]@[k1], self.edges@[i as int]@[k2]]
                        0 <= k1 < s.len() + 1 && 0 <= k2 < s.len() + 1 && k1 != k2
                        implies self.edges@[i as int]@[k1] != self.edges@[i as int]@[k2] by {
                        if k1 == s.len() {
                            if s[k2] == j {
                                assert(s.contains(j));
                            }
                        } else if k2 == s.len() {
                            if s[k1] == j {
                                assert(s.contains(j));
                            }
                        }
                    }
                }
                assert forall |a: usize, b: usize| #[trigger] prev.adj(a, b)
                    implies self.adj(a, b) by {
                    if a == i {
                        let s = prev.edges@[i as int]@;
                        let t = choose |t: int| 0 <= t < s.len() && s[t] == b;
                        assert(self.edges@[a as int]@[t] == b);
                        assert(self.edges@[a as int]@.contains(b));
                    } else {
                        assert(self.edges@[a as int] == prev.edges@[a as int]);
                    }
                }
                assert forall |a: usize, b: usize| #[trigger] self.adj(a, b)
                    implies prev.adj(a, b) || (a == i && b == j) by {
                    if a == i && b != j {
                        let s = prev.edges@[i as int]@;
                        let t = choose |t: int| 0 <= t < self.edges@[a as int]@.len()
                            && self.edges@[a as int]@[t] == b;
                        assert(s[t] == b);
                        assert(s.contains(b));
                    }
                }
            }
        }
    }

    /// Inserts the undirected edge between two registered node names,
    /// recording it symmetrically; reports `UnknownNode` and changes
    /// nothing when either name is unregistered. Inserting an edge
    /// that is already present changes nothing.
    pub fn add_edge(&mut self, node1: &String, node2: &String) -> (r: Result<(), GraphError>)
        requires
            old(self).wf(),
        ensures
            final(self).wf(),
            final(self).nodes@ == old(self).nodes@,
            forall |a: Seq<char>| #[trigger] final(self).has_node(a) == old(self).has_node(a),
            forall |a: Seq<char>| #[trigger] old(self).has_node(a)
                ==> final(self).spec_node_index(a) == old(self).spec_node_index(a),
            match r {
                Ok(()) => {
                    &&& old(self).has_node(node1@) && old(self).has_node(node2@)
                    &&& final(self).spec_edge(node1@, node2@)
                    &&& final(self).spec_edge(node2@, node1@)
                    &&& forall |a: Seq<char>, b: Seq<char>| #[trigger] old(self).spec_edge(a, b)
                            ==> final(self).spec_edge(a, b)
                    &&& forall |a: Seq<char>, b: Seq<char>| #[trigger] final(self).spec_edge(a, b)
                            ==> old(self).spec_edge(a, b)
                                || (a == node1@ && b == node2@)
                                || (a == node2@ && b == node1@)
                    &&& (old(self).spec_edge(node1@, node2@) ==> *final(self) == *old(self))
                },
                Err(e) => {
                    &&& e == GraphError::UnknownNode
                    &&& !(old(self).has_node(node1@) && old(self).has_node(node2@))
                    &&& *final(self) == *old(self)
                },
            },
    {
        if !self.contains_node(node1) || !self.contains_node(node2) {
            return Err(GraphError::UnknownNode);
        }
        let i = self.get_node_index(node1);
        let j = self.get_node_index(node2);
        let ghost g0 = *self;
        proof {
            if g0.adj(i, j) {
                assert(g0.adj(j, i));
            }
        }
        self.insert_neighbor(i, j);
        let ghost g1 = *self;
        self.insert_neighbor(j, i);
        proof {
            assert(self.has_node(node1@) && self.has_node(node2@)
                && self.spec_node_index(node1@) == i && self.spec_node_index(node2@) == j) by {
                assert(self.nodes@ == g0.nodes@);
            }
            assert(self.adj(j, i));
            assert(self.adj(i, j)) by {
                if !g1.adj(i, j) {
                    assert(false);
                } else {
                    if i == j {
                        assert(self.adj(i, j));
                    } else {
                        assert(self.edges@[i as int] == g1.edges@[i as int]);
                    }
                }
            }
            assert(self.wf()) by {
                assert forall |k: int| 0 <= k < self.edges@.len()
                    implies seq_in_range((#[trigger] self.edges@[k])@, self.nodes@.len())
                        && seq_nodup(self.edges@[k]@) by {
                    assert(seq_in_range(g0.edges@[k]@, g0.nodes@.len()));
                    assert(seq_nodup(g0.edges@[k]@));
                    if k == i as int || k == j as int {
                        assert(seq_nodup(self.edges@[k]@));
                    } else {
                        assert(self.edges@[k] == g0.edges@[k]);
                    }
                }
                assert forall |a: usize, b: usize| #[trigger] self.adj(a, b)
                    implies self.adj(b, a) by {
                    if g0.adj(a, b) {
                        assert(g0.adj(b, a));
                        assert(self.adj(b, a));
                    } else {
                        assert((a == i && b == j) || (a == j && b == i));
                        assert(self.adj(i, j) && self.adj(j, i));
                    }
                }
            }
            assert forall |a: Seq<char>| #[trigger] self.has_node(a) == g0.has_node(a) by {
                if self.has_node(a) {
                    let t = choose |t: usize| t < self.nodes@.len()
                        && (#[trigger] self.nodes@[t as int])@ == a;
                    assert(g0.nodes@[t as int]@ == a);
                }
                if g0.has_node(a) {
                    let t = choose |t: usize| t < g0.nodes@.len()
                        && (#[trigger] g0.nodes@[t as int])@ == a;
                    assert(self.nodes@[t as int]@ == a);
                }
            }
            assert forall |a: Seq<char>| #[trigger] g0.has_node(a)
                implies self.spec_node_index(a) == g0.spec_node_index(a) by {
                g0.lemma_node_index_valid(a);
                self.lemma_node_index_valid(a);
                let t = g0.spec_node_index(a);
                let t2 = self.spec_node_index(a);
                assert(self.nodes@[t as int]@ == a);
                if t != t2 {
                    assert(self.nodes@[t as int]@ != self.nodes@[t2 as int]@);
                }
            }
            assert forall |a: Seq<char>, b: Seq<char>| #[trigger] g0.spec_edge(a, b)
                implies self.spec_edge(a, b) by {
                assert(g0.adj(g0.spec_node_index(a), g0.spec_node_index(b)));
            }
            assert forall |a: Seq<char>, b: Seq<char>| #[trigger] self.spec_edge(a, b)
                implies g0.spec_edge(a, b)
                    || (a == node1@ && b == node2@) || (a == node2@ && b == node1@) by {
                let ia = self.spec_node_index(a);
                let ib = self.spec_node_index(b);
                if !g0.adj(ia, ib) {
                    assert((ia == i && ib == j) || (ia == j && ib == i));
                    self.lemma_node_index_valid(a);
                    self.lemma_node_index_valid(b);
                    self.lemma_index_of_name_at(i);
                    self.lemma_index_of_name_at(j);
                }
            }
            if g0.spec_edge(node1@, node2@) {
                assert(g0.adj(i, j));
                assert(g1 == g0);
                assert(*self == g1);
            }
        }
        Ok(())
    }

    /// Whether the edge between two registered node names is present;
    /// reports `UnknownNode` when either name is unregistered. By the
    /// symmetry invariant the answer does not depend on argument order.
    pub fn contains_edge(&self, node1: &String, node2: &String) -> (r: Result<bool, GraphError>)
        requires
            self.wf(),
        ensures
            match r {
                Ok(b) => {
                    &&& self.has_node(node1@) && self.has_node(node2@)
                    &&& b == self.spec_edge(node1@, node2@)
                },
                Err(e) => {
                    &&& e == GraphError::UnknownNode
                    &&& !(self.has_node(node1@) && self.has_node(node2@))
                },
            },
    {
        if !self.contains_node(node1) || !self.contains_node(node2) {
            return Err(GraphError::UnknownNode);
        }
        let i = self.get_node_index(node1);
        let j = self.get_node_index(node2);
        Ok(Self::list_contains(&self.edges[i], j))
    }

    /// The neighbor indices recorded for `index`.
    pub fn neighbors(&self, index: usize) -> (r: Vec<usize>)
        requires
            index < self.spec_node_count(),
            self.wf(),
        ensures
            r@ == self.edges@[index as int]@,
    {
        let mut r: Vec<usize> = Vec::new();
        let list = &self.edges[index];
        let n = list.len();
        let mut k: usize = 0;
        while k < n
            invariant
                n == list@.len(),
                k <= n,
                r@ == list@.subrange(0, k as int),
            decreases n - k,
        {
            r.push(list[k]);
            proof {
                assert(r@ =~= list@.subrange(0, k + 1 as int));
            }
            k = k + 1;
        }
        proof {
            assert(r@ =~= list@);
        }
        r
    }

    /// The name registered at `index`.
    pub fn get_node_name(&self, index: usize) -> (name: String)
        requires
            index < self.spec_node_count(),
        ensures
            name@ == self.name_at(index),
    {
        self.nodes[index].clone()
    }

    /// How many nodes are registered.
    pub fn node_count(&self) -> (n: usize)
        ensures
            n == self.spec_node_count(),
    {
        self.nodes.len()
    }
}

} // verus!
