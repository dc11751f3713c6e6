//! Building a graph from an association list: each record line names a
//! node in its first token and that node's neighbors in the remaining
//! tokens; edges are undirected.

use vstd::prelude::*;

use crate::graph::Graph;
use crate::parse::{tokenize, tokens_of};

verus! {

/// Whether one record, given as its token list, declares the edge
/// between `a` and `b`: one of them is the record's first token and
/// the other some later token.
pub open spec fn record_edge(toks: Seq<Seq<char>>, a: Seq<char>, b: Seq<char>) -> bool {
    exists |j: int| 1 <= j < toks.len()
        && ((toks[0] == a && (#[trigger] toks[j]) == b) || (toks[0] == b && toks[j] == a))
}

/// Whether some line of the association list mentions the name `a`.
pub open spec fn listed_node(lines: Seq<Seq<char>>, a: Seq<char>) -> bool {
    exists |i: int| 0 <= i < lines.len() && tokens_of(#[trigger] lines[i]).contains(a)
}

/// Whether some line of the association list declares the edge
/// between `a` and `b`.
pub open spec fn listed_edge(lines: Seq<Seq<char>>, a: Seq<char>, b: Seq<char>) -> bool {
    exists |i: int| 0 <= i < lines.len() && record_edge(tokens_of(#[trigger] lines[i]), a, b)
}

impl Graph {
    /// Registers one record: its first token as a node, every later
    /// token as a node joined to the first by an edge.
    fn add_record(&mut self, tokens: &Vec<String>)
        requires
            old(self).wf(),
            tokens@.len() >= 1,
        ensures
            final(self).wf(),
            forall |a: Seq<char>| #[trigger] final(self).has_node(a)
                == (old(self).has_node(a) || tokens.deep_view().contains(a)),
            forall |a: Seq<char>, b: Seq<char>| #[trigger] final(self).spec_edge(a, b)
                == (old(self).spec_edge(a, b) || record_edge(tokens.deep_view(), a, b)),
    {
        let ghost orig = *self;
        let ghost toks = tokens.deep_view();
        let n = tokens.len();
        self.add_node(tokens[0].clone());
        proof {
            assert(toks[0] == tokens@[0]@);
            assert(tokens.deep_view().subrange(1, 1) =~= Seq::<Seq<char>>::empty());
        }
        let mut j: usize = 1;
        while j < n
            invariant
                self.wf(),
                n == tokens@.len(),
                n >= 1,
                1 <= j <= n,
                toks == tokens.deep_view(),
                self.has_node(toks[0]),
                orig.wf(),
                forall |a: Seq<char>| #[trigger] self.has_node(a)
                    == (orig.has_node(a) || a == toks[0]
                        || toks.subrange(1, j as int).contains(a)),
                forall |a: Seq<char>, b: Seq<char>| #[trigger] self.spec_edge(a, b)
                    == (orig.spec_edge(a, b) || record_edge(toks.subrange(0, j as int), a, b)),
            decreases n - j,
        {
            let ghost mid = *self;
            self.add_node(tokens[j].clone());
            let ghost mid2 = *self;
            let r = self.add_edge(&tokens[j], &tokens[0]);
            proof {
                assert(tokens@[j as int]@ == toks[j as int]);
                assert(mid2.has_node(toks[j as int]) && mid2.has_node(toks[0]));
                assert(r is Ok);
                assert(self.spec_edge(toks[j as int], toks[0]));
                assert(self.spec_edge(toks[0], toks[j as int]));
                let pre_toks = toks.subrange(1, j as int);
                let post_toks = toks.subrange(1, j + 1 as int);
                assert(post_toks =~= pre_toks.push(toks[j as int]));
                assert forall |a: Seq<char>| #[trigger] self.has_node(a)
                    implies (orig.has_node(a) || a == toks[0] || post_toks.contains(a)) by {
                    if !orig.has_node(a) && a != toks[0] {
                        if pre_toks.contains(a) {
                            let t = choose |t: int| 0 <= t < pre_toks.len() && pre_toks[t] == a;
                            assert(post_toks[t] == a);
                        } else {
                            assert(a == toks[j as int]);
                            assert(post_toks[post_toks.len() - 1] == a);
                        }
                    }
                }
                assert forall |a: Seq<char>|
                    orig.has_node(a) || a == toks[0] || post_toks.contains(a)
                    implies #[trigger] self.has_node(a) by {
                    if post_toks.contains(a) {
                        let t = choose |t: int| 0 <= t < post_toks.len() && post_toks[t] == a;
                        if t < pre_toks.len() {
                            assert(pre_toks[t] == a);
                            assert(mid.has_node(a));
                        } else {
                            assert(a == toks[j as int]);
                        }
                    }
                }
                let pre_rec = toks.subrange(0, j as int);
                let post_rec = toks.subrange(0, j + 1 as int);
                assert(post_rec =~= pre_rec.push(toks[j as int]));
                assert(post_rec[0] == toks[0]);
                assert forall |a: Seq<char>, b: Seq<char>| #[trigger] self.spec_edge(a, b)
                    implies (orig.spec_edge(a, b) || record_edge(post_rec, a, b)) by {
                    if !orig.spec_edge(a, b) {
                        if mid2.spec_edge(a, b) {
                            assert(record_edge(pre_rec, a, b));
                            let t = choose |t: int| 1 <= t < pre_rec.len()
                                && ((pre_rec[0] == a && (#[trigger] pre_rec[t]) == b)
                                    || (pre_rec[0] == b && pre_rec[t] == a));
                            assert(post_rec[t] == pre_rec[t]);
                            assert(record_edge(post_rec, a, b));
                        } else {
                            assert((a == toks[j as int] && b == toks[0])
                                || (a == toks[0] && b == toks[j as int]));
                            assert(post_rec[j as int] == toks[j as int]);
                            assert(record_edge(post_rec, a, b));
                        }
                    }
                }
                assert forall |a: Seq<char>, b: Seq<char>|
                    orig.spec_edge(a, b) || record_edge(post_rec, a, b)
                    implies #[trigger] self.spec_edge(a, b) by {
                    if orig.spec_edge(a, b) {
                        assert(mid.spec_edge(a, b));
                        assert(mid2.spec_edge(a, b));
                    } else {
                        let t = choose |t: int| 1 <= t < post_rec.len()
                            && ((post_rec[0] == a && (#[trigger] post_rec[t]) == b)
                                || (post_rec[0] == b && post_rec[t] == a));
                        if t < j {
                            assert(pre_rec[t] == post_rec[t]);
                            assert(record_edge(pre_rec, a, b));
                            assert(mid2.spec_edge(a, b));
                        } else {
                            assert(post_rec[t] == toks[j as int]);
                        }
                    }
                }
            }
            j = j + 1;
        }
        proof {
            assert(toks.subrange(0, n as int) =~= toks);
            assert forall |a: Seq<char>| #[trigger] self.has_node(a)
                == (orig.has_node(a) || toks.contains(a)) by {
                if a == toks[0] {
                    assert(toks.contains(a)) by {
                        assert(toks[0] == a);
                    }
                }
                if toks.contains(a) {
                    let t = choose |t: int| 0 <= t < toks.len() && toks[t] == a;
                    if t >= 1 {
                        assert(toks.subrange(1, n as int)[t - 1] == a);
                    }
                }
                if toks.subrange(1, n as int).contains(a) {
                    let t = choose |t: int| 0 <= t < n - 1 && toks.subrange(1, n as int)[t] == a;
                    assert(toks[t + 1] == a);
                }
            }
        }
    }
}

/// Builds a graph from an association list: registers exactly the
/// names mentioned by the lines' tokens, and exactly the undirected
/// edges each line declares between its first token and every later
/// token.
pub fn build_graph(alist: Vec<String>) -> (g: Graph)
    ensures
        g.wf(),
        forall |a: Seq<char>| #[trigger] g.has_node(a) == listed_node(alist.deep_view(), a),
        forall |a: Seq<char>, b: Seq<char>| #[trigger] g.spec_edge(a, b)
            == listed_edge(alist.deep_view(), a, b),
{
    let ghost lines = alist.deep_view();
    let mut g = Graph::new();
    let n = alist.len();
    let mut i: usize = 0;
    while i < n
        invariant
            g.wf(),
            n == alist@.len(),
            i <= n,
            lines == alist.deep_view(),
            forall |a: Seq<char>| #[trigger] g.has_node(a)
                == listed_node(lines.subrange(0, i as int), a),
            forall |a: Seq<char>, b: Seq<char>| #[trigger] g.spec_edge(a, b)
                == listed_edge(lines.subrange(0, i as int), a, b),
        decreases n - i,
    {
        let toks = tokenize(alist[i].as_str());
        proof {
            assert(alist@[i as int]@ == lines[i as int]);
            assert(toks.deep_view() == tokens_of(lines[i as int]));
        }
        if toks.len() > 0 {
            g.add_record(&toks);
        }
        proof {
            let pre_lines = lines.subrange(0, i as int);
            let post_lines = lines.subrange(0, i + 1 as int);
            assert(post_lines =~= pre_lines.push(lines[i as int]));
            assert forall |a: Seq<char>| #[trigger] g.has_node(a)
                == listed_node(post_lines, a) by {
                if g.has_node(a) {
                    if listed_node(pre_lines, a) {
                        let t = choose |t: int| 0 <= t < pre_lines.len()
                            && tokens_of(#[trigger] pre_lines[t]).contains(a);
                        assert(post_lines[t] == pre_lines[t]);
                        assert(listed_node(post_lines, a));
                    } else {
                        assert(tokens_of(lines[i as int]).contains(a));
                        assert(post_lines[i as int] == lines[i as int]);
                        assert(listed_node(post_lines, a));
                    }
                }
                if listed_node(post_lines, a) {
                    let t = choose |t: int| 0 <= t < post_lines.len()
                        && tokens_of(#[trigger] post_lines[t]).contains(a);
                    if t < i {
                        assert(pre_lines[t] == post_lines[t]);
                        assert(listed_node(pre_lines, a));
                    } else {
                        assert(tokens_of(lines[i as int]).contains(a));
                    }
                    assert(g.has_node(a));
                }
            }
            assert forall |a: Seq<char>, b: Seq<char>| #[trigger] g.spec_edge(a, b)
                == listed_edge(post_lines, a, b) by {
                if g.spec_edge(a, b) {
                    if listed_edge(pre_lines, a, b) {
                        let t = choose |t: int| 0 <= t < pre_lines.len()
                            && record_edge(tokens_of(#[trigger] pre_lines[t]), a, b);
                        assert(post_lines[t] == pre_lines[t]);
                        assert(listed_edge(post_lines, a, b));
                    } else {
                        assert(record_edge(tokens_of(lines[i as int]), a, b));
                        assert(post_lines[i as int] == lines[i as int]);
                        assert(listed_edge(post_lines, a, b));
                    }
                }
                if listed_edge(post_lines, a, b) {
                    let t = choose |t: int| 0 <= t < post_lines.len()
                        && record_edge(tokens_of(#[trigger] post_lines[t]), a, b);
                    if t < i {
                        assert(pre_lines[t] == post_lines[t]);
                        assert(listed_edge(pre_lines, a, b));
                    } else {
                        assert(record_edge(tokens_of(lines[i as int]), a, b));
                    }
                    assert(g.spec_edge(a, b));
                }
            }
        }
        i = i + 1;
    }
    proof {
        assert(lines.subrange(0, n as int) =~= lines);
    }
    g
}

} // verus!
