//! The path finder: an unweighted shortest-path search over node
//! indices (a Dijkstra-style search with unit edge weights), with path
//! reconstruction from predecessor links, and its name-level wrapper.

use vstd::prelude::*;

use crate::graph::Graph;
use crate::GraphError;

verus! {

/// How many entries of `s` are true.
pub open spec fn count_true(s: Seq<bool>) -> int
    decreases s.len(),
{
    if s.len() == 0 {
        0
    } else {
        count_true(s.drop_last()) + if s[s.len() - 1] { 1int } else { 0int }
    }
}

/// A true entry makes the count positive.
proof fn lemma_count_true_at(s: Seq<bool>, j: int)
    requires
        0 <= j < s.len(),
        s[j],
    ensures
        count_true(s) >= 1,
    decreases s.len(),
{
    if j == s.len() - 1 {
        lemma_count_true_nonneg(s.drop_last());
    } else {
        lemma_count_true_at(s.drop_last(), j);
    }
}

/// The count is never negative.
proof fn lemma_count_true_nonneg(s: Seq<bool>)
    ensures
        count_true(s) >= 0,
    decreases s.len(),
{
    if s.len() > 0 {
        lemma_count_true_nonneg(s.drop_last());
    }
}

/// Turning one true entry false lowers the count by one.
proof fn lemma_count_true_update_false(s: Seq<bool>, j: int)
    requires
        0 <= j < s.len(),
        s[j],
    ensures
        count_true(s.update(j, false)) == count_true(s) - 1,
    decreases s.len(),
{
    let t = s.update(j, false);
    if j == s.len() - 1 {
        assert(t.drop_last() =~= s.drop_last());
    } else {
        assert(t.drop_last() =~= s.drop_last().update(j, false));
        lemma_count_true_update_false(s.drop_last(), j);
    }
}

/// A sequence of all-true entries counts its own length.
proof fn lemma_count_true_all(s: Seq<bool>)
    requires
        forall |k: int| 0 <= k < s.len() ==> s[k],
    ensures
        count_true(s) == s.len(),
    decreases s.len(),
{
    if s.len() > 0 {
        lemma_count_true_all(s.drop_last());
    }
}

impl Graph {
    /// A walk over valid node indices: at least one entry, each in
    /// range, consecutive entries adjacent.
    pub open spec fn is_index_path(&self, p: Seq<usize>) -> bool {
        &&& p.len() >= 1
        &&& forall |k: int| 0 <= k < p.len() ==> (#[trigger] p[k]) < self.spec_node_count()
        &&& forall |k: int| 0 <= k < p.len() - 1 ==> #[trigger] self.adj(p[k], p[k + 1])
    }

    /// A walk from index `s` to index `t`.
    pub open spec fn index_connects(&self, p: Seq<usize>, s: usize, t: usize) -> bool {
        &&& self.is_index_path(p)
        &&& p[0] == s
        &&& p[p.len() - 1] == t
    }

    /// A walk over registered node names: at least one entry, each
    /// registered, consecutive entries joined by an edge.
    pub open spec fn is_name_path(&self, q: Seq<Seq<char>>) -> bool {
        &&& q.len() >= 1
        &&& forall |k: int| 0 <= k < q.len() ==> self.has_node(#[trigger] q[k])
        &&& forall |k: int| 0 <= k < q.len() - 1 ==> #[trigger] self.spec_edge(q[k], q[k + 1])
    }

    /// A walk from name `a` to name `b`.
    pub open spec fn name_connects(&self, q: Seq<Seq<char>>, a: Seq<char>, b: Seq<char>) -> bool {
        &&& self.is_name_path(q)
        &&& q[0] == a
        &&& q[q.len() - 1] == b
    }

    /// The working state of the shortest-path search. `dist` and
    /// `pred` hold the tentative distance and predecessor link of each
    /// index (`None` standing for unreached); an index is remaining
    /// until the search finalizes it; `popped` counts the finalized
    /// indices. The last clause is the key fact: a finalized distance
    /// is a lower bound on the length of every walk from the start.
    /// The tentative distances of all neighbors of `v` account for the
    /// unit edge out of `v`.
    pub open spec fn frontier_relaxed(&self, dist: Seq<Option<usize>>, v: usize) -> bool {
        forall |w: usize| (w as int) < self.spec_node_count() && #[trigger] self.adj(v, w)
            ==> dist[w as int] is Some && dist[w as int]->0 <= dist[v as int]->0 + 1
    }

    /// All clauses of the search state but the frontier one.
    pub open spec fn search_inv_core(&self, start: usize, dist: Seq<Option<usize>>,
        pred: Seq<Option<usize>>, remaining: Seq<bool>, popped: int) -> bool {
        let n = self.spec_node_count() as int;
        &&& dist.len() == n
        &&& pred.len() == n
        &&& remaining.len() == n
        &&& (start as int) < n
        &&& dist[start as int] == Some(0usize)
        &&& pred[start as int] is None
        &&& forall |v: int| 0 <= v < n && !remaining[v] ==> (#[trigger] dist[v]) is Some
        &&& forall |v: int| 0 <= v < n && !remaining[v] && (#[trigger] dist[v]) is Some
                ==> dist[v]->0 < popped
        &&& forall |v: int| 0 <= v < n && remaining[v] && (#[trigger] dist[v]) is Some
                ==> dist[v]->0 <= popped
        &&& forall |v: int, w: int|
                #![trigger dist[v], dist[w]]
                0 <= v < n && 0 <= w < n && !remaining[v] && remaining[w] && dist[w] is Some
                ==> dist[v]->0 <= dist[w]->0
        &&& forall |v: int| 0 <= v < n && (#[trigger] pred[v]) is Some ==> {
                &&& (pred[v]->0 as int) < n
                &&& !remaining[pred[v]->0 as int]
                &&& dist[pred[v]->0 as int] is Some
                &&& dist[v] is Some
                &&& dist[v]->0 == dist[pred[v]->0 as int]->0 + 1
                &&& self.adj(pred[v]->0, v as usize)
            }
        &&& forall |v: int| 0 <= v < n && v != start && (#[trigger] dist[v]) is Some
                ==> pred[v] is Some
        &&& forall |v: usize, q: Seq<usize>|
                (v as int) < n && !remaining[v as int]
                && #[trigger] self.index_connects(q, start, v)
                ==> q.len() >= dist[v as int]->0 + 1
    }

    /// The working state of the shortest-path search: the core clauses,
    /// and every finalized index has had its neighbors relaxed.
    pub open spec fn search_inv(&self, start: usize, dist: Seq<Option<usize>>,
        pred: Seq<Option<usize>>, remaining: Seq<bool>, popped: int) -> bool {
        &&& self.search_inv_core(start, dist, pred, remaining, popped)
        &&& forall |v: usize| (v as int) < self.spec_node_count() && !remaining[v as int]
                ==> #[trigger] self.frontier_relaxed(dist, v)
    }

    /// Any walk from the start to a remaining index touches, at some
    /// position `k`, a remaining index whose tentative distance is at
    /// most `k`. Positions before `i` are already known finalized.
    proof fn lemma_path_crossing(&self, start: usize, dist: Seq<Option<usize>>,
        pred: Seq<Option<usize>>, remaining: Seq<bool>, popped: int,
        q: Seq<usize>, w: usize, i: int)
        requires
            self.wf(),
            self.search_inv(start, dist, pred, remaining, popped),
            self.index_connects(q, start, w),
            remaining[w as int],
            0 <= i < q.len(),
            forall |t: int| 0 <= t < i ==> !remaining[(#[trigger] q[t]) as int],
        ensures
            exists |k: int| i <= k < q.len() && remaining[(#[trigger] q[k]) as int]
                && dist[q[k] as int] is Some && dist[q[k] as int]->0 <= k,
        decreases q.len() - i,
    {
        if remaining[q[i] as int] {
            if i == 0 {
                assert(q[0] == start);
                assert(remaining[q[0] as int] && dist[q[0] as int] is Some
                    && dist[q[0] as int]->0 <= 0);
            } else {
                let v = q[i - 1];
                assert(!remaining[v as int]);
                let sub = q.subrange(0, i);
                assert(self.index_connects(sub, start, v)) by {
                    assert(sub[0] == q[0]);
                    assert(sub[sub.len() - 1] == q[i - 1]);
                    assert(forall |k: int| 0 <= k < sub.len() - 1
                        ==> #[trigger] self.adj(sub[k], sub[k + 1]));
                }
                assert(sub.len() >= dist[v as int]->0 + 1);
                assert(self.adj(q[i - 1], q[i - 1 + 1]));
                assert(self.adj(v, q[i]));
                assert(self.frontier_relaxed(dist, v));
                assert(dist[q[i] as int] is Some
                    && dist[q[i] as int]->0 <= dist[v as int]->0 + 1);
                assert(dist[q[i] as int]->0 <= i);
            }
        } else {
            assert(i < q.len() - 1) by {
                if i == q.len() - 1 {
                    assert(q[i] == w);
                }
            }
            self.lemma_path_crossing(start, dist, pred, remaining, popped, q, w, i + 1);
        }
    }

    /// Reverses a list of indices.
    fn reverse_indices(v: &Vec<usize>) -> (r: Vec<usize>)
        ensures
            r@ == v@.reverse(),
    {
        let n = v.len();
        let mut r: Vec<usize> = Vec::new();
        let mut t: usize = 0;
        while t < n
            invariant
                n == v@.len(),
                t <= n,
                r@.len() == t,
                forall |k: int| 0 <= k < t ==> r@[k] == v@[n - 1 - k],
            decreases n - t,
        {
            r.push(v[n - 1 - t]);
            t = t + 1;
        }
        proof {
            assert(r@ =~= v@.reverse());
        }
        r
    }

    /// Reconstructs the walk from `start` to `finish` by following the
    /// predecessor links back from `finish`, then reversing. The walk
    /// has exactly the finalized distance of `finish` as edge count.
    fn construct_index_path(&self, start: usize, finish: usize,
        dist: &Vec<Option<usize>>, pred: &Vec<Option<usize>>) -> (p: Vec<usize>)
        requires
            self.wf(),
            dist@.len() == self.spec_node_count(),
            pred@.len() == self.spec_node_count(),
            (start as int) < dist@.len(),
            (finish as int) < dist@.len(),
            dist@[start as int] == Some(0usize),
            pred@[start as int] is None,
            dist@[finish as int] is Some,
            forall |v: int| 0 <= v < pred@.len() && (#[trigger] pred@[v]) is Some ==> {
                &&& (pred@[v]->0 as int) < pred@.len()
                &&& dist@[pred@[v]->0 as int] is Some
                &&& dist@[v] is Some
                &&& dist@[v]->0 == dist@[pred@[v]->0 as int]->0 + 1
                &&& self.adj(pred@[v]->0, v as usize)
            },
            forall |v: int| 0 <= v < dist@.len() && v != start && (#[trigger] dist@[v]) is Some
                ==> pred@[v] is Some,
        ensures
            self.index_connects(p@, start, finish),
            p@.len() == dist@[finish as int]->0 + 1,
    {
        let ghost n = self.spec_node_count() as int;
        let ghost df = dist@[finish as int]->0 as int;
        let mut path: Vec<usize> = Vec::new();
        let mut node = finish;
        while node != start
            invariant
                self.wf(),
                dist@.len() == n,
                pred@.len() == n,
                n == self.spec_node_count() as int,
                0 <= (start as int) < n,
                0 <= (finish as int) < n,
                dist@[start as int] == Some(0usize),
                pred@[start as int] is None,
                forall |v: int| 0 <= v < pred@.len() && (#[trigger] pred@[v]) is Some ==> {
                    &&& (pred@[v]->0 as int) < pred@.len()
                    &&& dist@[pred@[v]->0 as int] is Some
                    &&& dist@[v] is Some
                    &&& dist@[v]->0 == dist@[pred@[v]->0 as int]->0 + 1
                    &&& self.adj(pred@[v]->0, v as usize)
                },
                forall |v: int| 0 <= v < dist@.len() && v != start
                    && (#[trigger] dist@[v]) is Some ==> pred@[v] is Some,
                (node as int) < n,
                dist@[node as int] is Some,
                df == dist@[finish as int]->0 as int,
                path@.len() == df - dist@[node as int]->0,
                path@.len() > 0 ==> path@[0] == finish,
                path@.len() == 0 ==> node == finish,
                forall |k: int| 0 <= k < path@.len() ==> ((#[trigger] path@[k]) as int) < n,
                forall |k: int| 0 <= k < path@.len() - 1 ==> #[trigger] self.adj(path@[k + 1], path@[k]),
                path@.len() > 0 ==> self.adj(node, path@[path@.len() - 1]),
            decreases dist@[node as int]->0,
        {
            let ghost prev_path = path@;
            let ghost prev_node = node;
            let a = pred[node].unwrap();
            path.push(node);
            node = a;
            proof {
                assert(path@ == prev_path.push(prev_node));
                assert forall |k: int| 0 <= k < path@.len() - 1
                    implies #[trigger] self.adj(path@[k + 1], path@[k]) by {
                    if k + 1 < prev_path.len() {
                        assert(self.adj(prev_path[k + 1], prev_path[k]));
                    } else {
                        assert(path@[k + 1] == prev_node);
                        assert(path@[k] == prev_path[prev_path.len() - 1]);
                    }
                }
            }
        }
        proof {
            assert(dist@[node as int]->0 == 0);
            assert(path@.len() == df);
        }
        path.push(node);
        let r = Self::reverse_indices(&path);
        proof {
            let t = path@;
            assert(t.len() == df + 1);
            assert(t[df] == start);
            assert(r@.len() == df + 1);
            assert forall |k: int| 0 <= k < r@.len() implies r@[k] == t[df - k] by {}
            assert(r@[0] == start);
            assert(r@[df] == (if df > 0 { t[0] } else { start }));
            if df > 0 {
                assert(t[0] == finish);
            } else {
                assert(node == finish);
            }
            assert(self.index_connects(r@, start, finish)) by {
                assert forall |k: int| 0 <= k < r@.len() - 1
                    implies #[trigger] self.adj(r@[k], r@[k + 1]) by {
                    let j = df - k - 1;
                    assert(0 <= j < t.len() - 1);
                    assert(self.adj(t[j + 1], t[j]));
                    assert(r@[k] == t[j + 1] && r@[k + 1] == t[j]);
                }
            }
        }
        r
    }

    /// Picks a remaining index whose tentative distance is least,
    /// where no distance counts as infinite; ties go to the lowest
    /// index. Requires at least one remaining index.
    fn get_next_node_index(&self, dist: &Vec<Option<usize>>, remaining: &Vec<bool>) -> (u: usize)
        requires
            dist@.len() == remaining@.len(),
            exists |k: int| 0 <= k < remaining@.len() && remaining@[k],
        ensures
            (u as int) < remaining@.len(),
            remaining@[u as int],
            dist@[u as int] is Some ==> forall |k: int|
                0 <= k < remaining@.len() && remaining@[k] && (#[trigger] dist@[k]) is Some
                ==> dist@[u as int]->0 <= dist@[k]->0,
            dist@[u as int] is None ==> forall |k: int|
                0 <= k < remaining@.len() && remaining@[k] ==> (#[trigger] dist@[k]) is None,
    {
        let n = remaining.len();
        let mut best: usize = 0;
        let mut found = false;
        let mut j: usize = 0;
        while j < n
            invariant
                n == remaining@.len(),
                dist@.len() == remaining@.len(),
                j <= n,
                !found ==> forall |k: int| 0 <= k < j ==> !remaining@[k],
                found ==> {
                    &&& (best as int) < j
                    &&& remaining@[best as int]
                    &&& (dist@[best as int] is Some ==> forall |k: int|
                            0 <= k < j && remaining@[k] && (#[trigger] dist@[k]) is Some
                            ==> dist@[best as int]->0 <= dist@[k]->0)
                    &&& (dist@[best as int] is None ==> forall |k: int|
                            0 <= k < j && remaining@[k] ==> (#[trigger] dist@[k]) is None)
                },
            decreases n - j,
        {
            if remaining[j] {
                if !found {
                    best = j;
                    found = true;
                } else {
                    let better = match (&dist[j], &dist[best]) {
                        (Some(dj), Some(db)) => *dj < *db,
                        (Some(_), None) => true,
                        _ => false,
                    };
                    if better {
                        best = j;
                    }
                }
            }
            j = j + 1;
        }
        proof {
            if !found {
                let k = choose |k: int| 0 <= k < remaining@.len() && remaining@[k];
                assert(!remaining@[k]);
            }
        }
        best
    }
    /// Computes a shortest walk (fewest edges) between two node
    /// indices: `Some` holds a minimum-length walk from `start` to
    /// `finish`, and `None` means no walk connects them.
    pub fn shortest_index_path(&self, start: usize, finish: usize) -> (r: Option<Vec<usize>>)
        requires
            self.wf(),
            (start as int) < self.spec_node_count(),
            (finish as int) < self.spec_node_count(),
        ensures
            match r {
                Some(p) => {
                    &&& self.index_connects(p@, start, finish)
                    &&& forall |q: Seq<usize>| #[trigger] self.index_connects(q, start, finish)
                            ==> p@.len() <= q.len()
                },
                None => forall |q: Seq<usize>| !(#[trigger] self.index_connects(q, start, finish)),
            },
    {
        let n = self.node_count();
        let mut dist: Vec<Option<usize>> = Vec::new();
        let mut pred: Vec<Option<usize>> = Vec::new();
        let mut remaining: Vec<bool> = Vec::new();
        let mut i: usize = 0;
        while i < n
            invariant
                i <= n,
                dist@.len() == i,
                pred@.len() == i,
                remaining@.len() == i,
                forall |k: int| 0 <= k < i ==> (#[trigger] dist@[k]) is None,
                forall |k: int| 0 <= k < i ==> (#[trigger] pred@[k]) is None,
                forall |k: int| 0 <= k < i ==> (#[trigger] remaining@[k]),
            decreases n - i,
        {
            dist.push(None);
            pred.push(None);
            remaining.push(true);
            i = i + 1;
        }
        dist[start] = Some(0);
        let mut num_remaining: usize = n;
        proof {
            lemma_count_true_all(remaining@);
        }
        while num_remaining > 0
            invariant
                self.wf(),
                n == self.spec_node_count(),
                (start as int) < n,
                (finish as int) < n,
                num_remaining <= n,
                count_true(remaining@) == num_remaining,
                remaining@[finish as int],
                self.search_inv(start, dist@, pred@, remaining@, n - num_remaining),
            decreases num_remaining,
        {
            proof {
                assert(exists |k: int| 0 <= k < remaining@.len() && remaining@[k]) by {
                    assert(remaining@[finish as int]);
                }
            }
            let u = self.get_next_node_index(&dist, &remaining);
            let ghost popped = n - num_remaining;
            match dist[u] {
                None => {
                    // Every remaining index is unreached, so no walk
                    // leads from the start to `finish`.
                    proof {
                        assert forall |q: Seq<usize>|
                            !(#[trigger] self.index_connects(q, start, finish)) by {
                            if self.index_connects(q, start, finish) {
                                self.lemma_path_crossing(start, dist@, pred@, remaining@,
                                    popped, q, finish, 0);
                                let k = choose |k: int| 0 <= k < q.len()
                                    && remaining@[(#[trigger] q[k]) as int]
                                    && dist@[q[k] as int] is Some && dist@[q[k] as int]->0 <= k;
                                assert(dist@[q[k] as int] is None);
                            }
                        }
                    }
                    return None;
                }
                Some(du) => {
                    proof {
                        // When the search finalizes `u`, its tentative
                        // distance bounds every walk from the start.
                        assert forall |q: Seq<usize>| #[trigger] self.index_connects(q, start, u)
                            implies q.len() >= du + 1 by {
                            self.lemma_path_crossing(start, dist@, pred@, remaining@,
                                popped, q, u, 0);
                            let k = choose |k: int| 0 <= k < q.len()
                                && remaining@[(#[trigger] q[k]) as int]
                                && dist@[q[k] as int] is Some && dist@[q[k] as int]->0 <= k;
                            assert(du <= dist@[q[k] as int]->0);
                        }
                    }
                    let ghost pre_remaining = remaining@;
                    remaining[u] = false;
                    num_remaining = num_remaining - 1;
                    proof {
                        lemma_count_true_update_false(pre_remaining, u as int);
                        assert(remaining@[finish as int] == pre_remaining[finish as int]
                            || u == finish);
                        assert(self.search_inv_core(start, dist@, pred@, remaining@,
                            popped + 1)) by {
                            assert forall |v: int, w: int|
                                #![trigger dist@[v], dist@[w]]
                                0 <= v < n && 0 <= w < n && !remaining@[v] && remaining@[w]
                                && dist@[w] is Some
                                implies dist@[v]->0 <= dist@[w]->0 by {
                                if v == u as int {
                                    assert(pre_remaining[w] && dist@[w] is Some);
                                }
                            }
                        }
                    }
                    if u == finish {
                        let p = self.construct_index_path(start, finish, &dist, &pred);
                        return Some(p);
                    }
                    proof {
                        assert(remaining@[finish as int]);
                    }
                    let list = &self.edges[u];
                    let len = list.len();
                    let mut k: usize = 0;
                    proof {
                        assert(crate::graph::seq_in_range(self.edges@[u as int]@,
                            self.spec_node_count()));
                    }
                    while k < len
                        invariant
                            self.wf(),
                            n == self.spec_node_count(),
                            (start as int) < n,
                            (finish as int) < n,
                            (u as int) < n,
                            u != finish,
                            du < n,
                            list == &self.edges@[u as int],
                            len == list@.len(),
                            k <= len,
                            crate::graph::seq_in_range(list@, self.spec_node_count()),
                            !remaining@[u as int],
                            remaining@[finish as int],
                            count_true(remaining@) == num_remaining,
                            num_remaining <= n,
                            dist@[u as int] == Some(du),
                            forall |v: int| 0 <= v < n && !remaining@[v]
                                && (#[trigger] dist@[v]) is Some ==> dist@[v]->0 <= du,
                            self.search_inv_core(start, dist@, pred@, remaining@,
                                n - num_remaining),
                            forall |v: usize| (v as int) < n && !remaining@[v as int] && v != u
                                ==> #[trigger] self.frontier_relaxed(dist@, v),
                            forall |t: int| 0 <= t < k ==> {
                                &&& dist@[(#[trigger] list@[t]) as int] is Some
                                &&& dist@[list@[t] as int]->0 <= du + 1
                            },
                        decreases len - k,
                    {
                        let m = list[k];
                        if remaining[m] {
                            let relax = match dist[m] {
                                None => true,
                                Some(dm) => du + 1 < dm,
                            };
                            if relax {
                                let ghost pre_dist = dist@;
                                let ghost pre_pred = pred@;
                                dist[m] = Some(du + 1);
                                pred[m] = Some(u);
                                proof {
                                    assert(self.adj(u, m)) by {
                                        assert(self.edges@[u as int]@[k as int] == m);
                                    }
                                    assert forall |v: usize| (v as int) < n
                                        && !remaining@[v as int] && v != u
                                        implies #[trigger] self.frontier_relaxed(dist@, v) by {
                                        assert(self.frontier_relaxed(pre_dist, v));
                                        assert forall |w: usize| (w as int) < n
                                            && #[trigger] self.adj(v, w)
                                            implies dist@[w as int] is Some
                                                && dist@[w as int]->0
                                                    <= dist@[v as int]->0 + 1 by {
                                            assert(pre_dist[w as int] is Some);
                                        }
                                    }
                                    assert(self.search_inv_core(start, dist@, pred@, remaining@,
                                        n - num_remaining)) by {
                                        assert forall |v: int|
                                            0 <= v < n && (#[trigger] pred@[v]) is Some
                                            implies {
                                                &&& (pred@[v]->0 as int) < n
                                                &&& !remaining@[pred@[v]->0 as int]
                                                &&& dist@[pred@[v]->0 as int] is Some
                                                &&& dist@[v] is Some
                                                &&& dist@[v]->0
                                                    == dist@[pred@[v]->0 as int]->0 + 1
                                                &&& self.adj(pred@[v]->0, v as usize)
                                            } by {
                                            if v != m as int {
                                                assert(pred@[v] == pre_pred[v]);
                                                assert(!remaining@[pred@[v]->0 as int]);
                                                assert(dist@[pred@[v]->0 as int]
                                                    == pre_dist[pred@[v]->0 as int]);
                                            }
                                        }
                                    }
                                }
                            }
                        }
                        k = k + 1;
                    }
                    proof {
                        assert forall |v: usize| (v as int) < n && !remaining@[v as int]
                            implies #[trigger] self.frontier_relaxed(dist@, v) by {
                            if v == u {
                                assert forall |w: usize| (w as int) < n && #[trigger] self.adj(u, w)
                                    implies dist@[w as int] is Some
                                        && dist@[w as int]->0 <= dist@[u as int]->0 + 1 by {
                                    let t = choose |t: int| 0 <= t < list@.len()
                                        && list@[t] == w;
                                    assert(dist@[(list@[t]) as int] is Some);
                                }
                            }
                        }
                    }
                }
            }
        }
        proof {
            lemma_count_true_at(remaining@, finish as int);
        }
        None
    }
    /// A walk over indices names a walk over node names, entry by entry.
    pub proof fn lemma_index_path_to_names(&self, p: Seq<usize>, q: Seq<Seq<char>>)
        requires
            self.wf(),
            self.is_index_path(p),
            q.len() == p.len(),
            forall |k: int| 0 <= k < p.len() ==> (#[trigger] q[k]) == self.name_at(p[k]),
        ensures
            self.is_name_path(q),
    {
        assert forall |k: int| 0 <= k < q.len() implies self.has_node(#[trigger] q[k]) by {
            self.lemma_index_of_name_at(p[k]);
        }
        assert forall |k: int| 0 <= k < q.len() - 1
            implies #[trigger] self.spec_edge(q[k], q[k + 1]) by {
            self.lemma_index_of_name_at(p[k]);
            self.lemma_index_of_name_at(p[k + 1]);
            assert(self.adj(p[k], p[k + 1]));
        }
    }

    /// A walk over node names maps back to a walk over their indices.
    pub proof fn lemma_name_path_to_indices(&self, q: Seq<Seq<char>>, p: Seq<usize>)
        requires
            self.wf(),
            self.is_name_path(q),
            p.len() == q.len(),
            forall |k: int| 0 <= k < q.len() ==> (#[trigger] p[k]) == self.spec_node_index(q[k]),
        ensures
            self.is_index_path(p),
    {
        assert forall |k: int| 0 <= k < p.len() implies (#[trigger] p[k]) < self.spec_node_count() by {
            self.lemma_node_index_valid(q[k]);
        }
        assert forall |k: int| 0 <= k < p.len() - 1
            implies #[trigger] self.adj(p[k], p[k + 1]) by {
            assert(self.spec_edge(q[k], q[k + 1]));
        }
    }

    /// Whether any path joins two registered node names.
    pub fn path_exists(&self, start: &String, finish: &String) -> (r: bool)
        requires
            self.wf(),
            self.has_node(start@),
            self.has_node(finish@),
        ensures
            r == (exists |q: Seq<Seq<char>>| self.name_connects(q, start@, finish@)),
    {
        let si = self.get_node_index(start);
        let fi = self.get_node_index(finish);
        let found = self.shortest_index_path(si, fi);
        proof {
            if found is Some {
                let ip = found->0;
                let q = Seq::new(ip@.len(), |k: int| self.name_at(ip@[k]));
                self.lemma_index_path_to_names(ip@, q);
                assert(self.name_connects(q, start@, finish@));
            } else {
                if exists |q: Seq<Seq<char>>| self.name_connects(q, start@, finish@) {
                    let q = choose |q: Seq<Seq<char>>| self.name_connects(q, start@, finish@);
                    let p = Seq::new(q.len(), |k: int| self.spec_node_index(q[k]));
                    self.lemma_name_path_to_indices(q, p);
                    assert(self.index_connects(p, si, fi));
                }
            }
        }
        found.is_some()
    }

    /// Computes a shortest path between two node names.
    ///
    /// Reports `UnknownNode` when either endpoint is unregistered.
    /// Otherwise `Ok(None)` means no path joins the endpoints, and
    /// `Ok(Some(path))` holds a minimum-length sequence of node names
    /// from `start` to `finish` whose consecutive entries are joined
    /// by edges. A registered node reaches itself by the one-entry path.
    pub fn shortest_path(&self, start: &String, finish: &String)
        -> (r: Result<Option<Vec<String>>, GraphError>)
        requires
            self.wf(),
        ensures
            match r {
                Err(e) => {
                    &&& e == GraphError::UnknownNode
                    &&& !(self.has_node(start@) && self.has_node(finish@))
                },
                Ok(None) => {
                    &&& self.has_node(start@) && self.has_node(finish@)
                    &&& forall |q: Seq<Seq<char>>|
                            !(#[trigger] self.name_connects(q, start@, finish@))
                },
                Ok(Some(p)) => {
                    &&& self.has_node(start@) && self.has_node(finish@)
                    &&& self.name_connects(p.deep_view(), start@, finish@)
                    &&& forall |q: Seq<Seq<char>>|
                            #[trigger] self.name_connects(q, start@, finish@)
                            ==> p@.len() <= q.len()
                },
            },
            (r is Err) <==> !(self.has_node(start@) && self.has_node(finish@)),
            self.has_node(start@) && start@ == finish@
                ==> (r matches Ok(Some(p)) && p.deep_view() == seq![start@]),
    {
        if !self.contains_node(start) || !self.contains_node(finish) {
            return Err(GraphError::UnknownNode);
        }
        let si = self.get_node_index(start);
        let fi = self.get_node_index(finish);
        proof {
            if start@ == finish@ {
                let single: Seq<usize> = seq![si];
                assert(single[0] == si && single[single.len() - 1] == si);
                assert(self.index_connects(single, si, fi));
            }
        }
        match self.shortest_index_path(si, fi) {
            None => {
                proof {
                    assert forall |q: Seq<Seq<char>>|
                        !(#[trigger] self.name_connects(q, start@, finish@)) by {
                        if self.name_connects(q, start@, finish@) {
                            let p = Seq::new(q.len(), |k: int| self.spec_node_index(q[k]));
                            self.lemma_name_path_to_indices(q, p);
                            assert(self.index_connects(p, si, fi));
                        }
                    }
                }
                Ok(None)
            }
            Some(ip) => {
                let mut names: Vec<String> = Vec::new();
                let len = ip.len();
                let mut k: usize = 0;
                while k < len
                    invariant
                        self.wf(),
                        len == ip@.len(),
                        k <= len,
                        self.is_index_path(ip@),
                        names@.len() == k,
                        forall |t: int| 0 <= t < k
                            ==> ((#[trigger] names@[t])@ == self.name_at(ip@[t])),
                    decreases len - k,
                {
                    let name = self.get_node_name(ip[k]);
                    names.push(name);
                    k = k + 1;
                }
                proof {
                    let q = names.deep_view();
                    assert(q.len() == ip@.len());
                    assert(forall |t: int| 0 <= t < ip@.len()
                        ==> (#[trigger] q[t]) == self.name_at(ip@[t]));
                    self.lemma_index_path_to_names(ip@, q);
                    assert(q[0] == start@ && q[q.len() - 1] == finish@);
                    assert(self.name_connects(q, start@, finish@));
                    assert forall |q2: Seq<Seq<char>>|
                        #[trigger] self.name_connects(q2, start@, finish@)
                        implies names@.len() <= q2.len() by {
                        let p2 = Seq::new(q2.len(), |k: int| self.spec_node_index(q2[k]));
                        self.lemma_name_path_to_indices(q2, p2);
                        assert(self.index_connects(p2, si, fi));
                    }
                    if start@ == finish@ {
                        assert(ip@.len() <= 1);
                        assert(q =~= seq![start@]);
                    }
                }
                Ok(Some(names))
            }
        }
    }
}

} // verus!
