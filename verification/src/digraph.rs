//! Graphs given by the names at the ends of their edges, and the numbered
//! graphs that the measures run on.

use crate::cycles;
use crate::names;
use crate::names::NameTable;
use vstd::prelude::*;

verus! {

/// One stored call edge, as far as the graph measures read it.
pub struct EdgeRow {
    pub from_symbol: String,
    pub to_symbol: String,
    pub edge_confidence: String,
    /// An outside proof says that the call does not exist.
    pub ruled_out_by_scip: bool,
}

/// A pair of names, from the one to the other.
pub type Arc = (Seq<char>, Seq<char>);

/// The numbered graph `adj` over `nodes` has exactly the arcs of `arcs`, and
/// every end of an arc is a node.
pub open spec fn depicts(nodes: Seq<Seq<char>>, adj: Seq<Vec<usize>>, arcs: Seq<Arc>) -> bool {
    &&& adj.len() == nodes.len()
    &&& cycles::graph_ok(adj)
    &&& forall|u: int, v: int|
        0 <= u < nodes.len() && 0 <= v < nodes.len() ==> (#[trigger] cycles::edge(adj, u, v)
            <==> arcs.contains((nodes[u], nodes[v])))
    &&& forall|i: int|
        0 <= i < arcs.len() ==> nodes.contains((#[trigger] arcs[i]).0) && nodes.contains(arcs[i].1)
    &&& forall|u: int| 0 <= u < nodes.len() ==> touched(arcs, #[trigger] nodes[u])
}

/// `a` is an end of some arc.
pub open spec fn touched(arcs: Seq<Arc>, a: Seq<char>) -> bool {
    exists|i: int| 0 <= i < arcs.len() && ((#[trigger] arcs[i]).0 == a || arcs[i].1 == a)
}

/// No name stands twice.
pub open spec fn all_distinct(nodes: Seq<Seq<char>>) -> bool {
    forall|i: int, j: int|
        0 <= i < j < nodes.len() ==> #[trigger] nodes[i] != #[trigger] nodes[j]
}

/// A numbered graph that grows arc by arc.
pub struct Digraph {
    pub nodes: NameTable,
    pub adj: Vec<Vec<usize>>,
}

impl Digraph {
    pub open spec fn wf(&self, arcs: Seq<Arc>) -> bool {
        self.nodes.wf() && depicts(self.nodes@, self.adj@, arcs)
    }

    pub fn new() -> (r: Self)
        ensures
            r.wf(seq![]),
    {
        Digraph { nodes: NameTable::new(), adj: Vec::new() }
    }

    /// The number of a node, which is added when it is new.
    fn node(&mut self, name: &str) -> (r: usize)
        requires
            old(self).nodes.wf(),
            old(self).adj@.len() == old(self).nodes@.len(),
            cycles::graph_ok(old(self).adj@),
        ensures
            final(self).nodes.wf(),
            final(self).adj@.len() == final(self).nodes@.len(),
            r < final(self).nodes@.len(),
            final(self).nodes@[r as int] == name@,
            final(self).nodes@ == if old(self).nodes@.contains(name@) {
                old(self).nodes@
            } else {
                old(self).nodes@.push(name@)
            },
            cycles::graph_ok(final(self).adj@),
            forall|u: int|
                0 <= u < old(self).adj@.len() ==> (#[trigger] final(self).adj@[u])@ == old(
                    self,
                ).adj@[u]@,
            forall|u: int|
                old(self).adj@.len() <= u < final(self).adj@.len() ==> (
                #[trigger] final(self).adj@[u])@.len() == 0,
    {
        let ghost before = self.adj@;
        let ghost old_nodes = self.nodes@;
        let r = self.nodes.intern(name);
        if r == self.adj.len() {
            self.adj.push(Vec::new());
        }
        proof {
            if !old_nodes.contains(name@) && r < old_nodes.len() {
                assert(old_nodes[r as int] == name@);
            }
            assert(self.adj@.len() == self.nodes@.len());
            assert forall|u: int, j: int|
                0 <= u < self.adj@.len() && 0 <= j < self.adj@[u]@.len() implies (
            #[trigger] self.adj@[u]@[j]) < self.adj@.len() by {
                if u < before.len() {
                    assert(self.adj@[u]@[j] == before[u]@[j]);
                }
            }
        }
        r
    }

    /// Add the arc from `a` to `b`.
    pub fn add_arc(&mut self, a: &str, b: &str, arcs: Ghost<Seq<Arc>>)
        requires
            old(self).wf(arcs@),
        ensures
            final(self).wf(arcs@.push((a@, b@))),
            final(self).nodes@ == names::first_uses_step(
                names::first_uses_step(old(self).nodes@, a@),
                b@,
            ),
    {
        let ghost n0 = self.nodes@;
        let ghost a0 = self.adj@;
        let u = self.node(a);
        let ghost n1 = self.nodes@;
        let ghost a1 = self.adj@;
        let v = self.node(b);
        let ghost n2 = self.nodes@;
        let ghost a2 = self.adj@;
        assert(n2[u as int] == a@);
        self.adj[u].push(v);
        proof {
            let next = arcs@.push((a@, b@));
            assert(self.adj@[u as int]@ == a2[u as int]@.push(v));
            assert(a2[u as int]@ == a1[u as int]@);
            if u >= a0.len() {
                assert(a1[u as int]@.len() == 0);
                assert(a2[u as int]@ =~= Seq::<usize>::empty());
            } else {
                assert(a1[u as int]@ == a0[u as int]@);
            }
            assert forall|x: int, j: int|
                0 <= x < self.adj@.len() && 0 <= j < self.adj@[x]@.len() implies (
            #[trigger] self.adj@[x]@[j]) < self.adj@.len() by {
                if x != u {
                    assert(self.adj@[x]@[j] == a2[x]@[j]);
                } else if j < a2[x]@.len() {
                    assert(self.adj@[x]@[j] == a2[x]@[j]);
                }
            }
            assert forall|x: int, y: int|
                0 <= x < n2.len() && 0 <= y < n2.len() implies (#[trigger] cycles::edge(
                self.adj@,
                x,
                y,
            ) <==> next.contains((n2[x], n2[y]))) by {
                self.lemma_arc_added(n0, a0, arcs@, a@, b@, u, v, x, y);
            }
            assert forall|i: int| 0 <= i < next.len() implies n2.contains(
                (#[trigger] next[i]).0,
            ) && n2.contains(next[i].1) by {
                if i < arcs@.len() {
                    assert(next[i] == arcs@[i]);
                    let j0 = choose|j: int| 0 <= j < n0.len() && n0[j] == arcs@[i].0;
                    let j1 = choose|j: int| 0 <= j < n0.len() && n0[j] == arcs@[i].1;
                    assert(n2[j0] == arcs@[i].0);
                    assert(n2[j1] == arcs@[i].1);
                } else {
                    assert(n2[v as int] == b@);
                }
            }
            assert forall|x: int| 0 <= x < n2.len() implies touched(next, #[trigger] n2[x]) by {
                if x < n0.len() {
                    assert(touched(arcs@, n0[x]));
                    let i = choose|i: int|
                        0 <= i < arcs@.len() && ((#[trigger] arcs@[i]).0 == n0[x] || arcs@[i].1
                            == n0[x]);
                    assert(next[i] == arcs@[i]);
                } else {
                    assert(next[arcs@.len() as int] == (a@, b@));
                }
            }
        }
    }

    proof fn lemma_arc_added(
        &self,
        n0: Seq<Seq<char>>,
        a0: Seq<Vec<usize>>,
        arcs: Seq<Arc>,
        a: Seq<char>,
        b: Seq<char>,
        u: usize,
        v: usize,
        x: int,
        y: int,
    )
        requires
            depicts(n0, a0, arcs),
            self.nodes.wf(),
            self.adj@.len() == self.nodes@.len(),
            n0.len() <= self.nodes@.len(),
            forall|i: int| 0 <= i < n0.len() ==> #[trigger] n0[i] == self.nodes@[i],
            u < self.nodes@.len(),
            v < self.nodes@.len(),
            self.nodes@[u as int] == a,
            self.nodes@[v as int] == b,
            0 <= x < self.nodes@.len(),
            0 <= y < self.nodes@.len(),
            forall|w: int|
                0 <= w < a0.len() && w != u ==> (#[trigger] self.adj@[w])@ == a0[w]@,
            forall|w: int|
                a0.len() <= w < self.adj@.len() && w != u ==> (#[trigger] self.adj@[w])@.len() == 0,
            self.adj@[u as int]@ == (if u < a0.len() {
                a0[u as int]@
            } else {
                Seq::<usize>::empty()
            }).push(v),
        ensures
            cycles::edge(self.adj@, x, y) <==> arcs.push((a, b)).contains(
                (self.nodes@[x], self.nodes@[y]),
            ),
    {
        let next = arcs.push((a, b));
        let pair = (self.nodes@[x], self.nodes@[y]);
        if cycles::edge(self.adj@, x, y) {
            let j = choose|j: int| 0 <= j < self.adj@[x]@.len() && #[trigger] self.adj@[x]@[j] == y;
            if x == u && j == self.adj@[x]@.len() - 1 {
                assert(y == v);
                assert(next[arcs.len() as int] == pair);
            } else {
                assert(x < a0.len());
                assert(a0[x]@[j] == y);
                assert(cycles::edge(a0, x, y));
                assert(a0[x]@[j] < a0.len());
                assert(arcs.contains((n0[x], n0[y])));
                let i = choose|i: int| 0 <= i < arcs.len() && arcs[i] == (n0[x], n0[y]);
                assert(next[i] == pair);
            }
        }
        if next.contains(pair) {
            let i = choose|i: int| 0 <= i < next.len() && next[i] == pair;
            if i == arcs.len() {
                self.nodes.lemma_distinct(x, u as int);
                self.nodes.lemma_distinct(y, v as int);
                assert(self.adj@[u as int]@[self.adj@[u as int]@.len() - 1] == v);
            } else {
                assert(arcs[i] == pair);
                assert(n0.contains(arcs[i].0) && n0.contains(arcs[i].1));
                let x0 = choose|j: int| 0 <= j < n0.len() && n0[j] == pair.0;
                let y0 = choose|j: int| 0 <= j < n0.len() && n0[j] == pair.1;
                self.nodes.lemma_distinct(x, x0);
                self.nodes.lemma_distinct(y, y0);
                assert(arcs.contains((n0[x], n0[y])));
                assert(cycles::edge(a0, x, y));
                let j = choose|j: int| 0 <= j < a0[x]@.len() && #[trigger] a0[x]@[j] == y;
                assert(self.adj@[x]@[j] == y);
            }
        }
    }
}

/// The same lists with every repeated entry left out.
pub fn without_repeats(adj: &Vec<Vec<usize>>) -> (r: Vec<Vec<usize>>)
    requires
        cycles::graph_ok(adj@),
    ensures
        r@.len() == adj@.len(),
        cycles::graph_ok(r@),
        forall|u: int, v: int| #[trigger] cycles::edge(r@, u, v) <==> cycles::edge(adj@, u, v),
        forall|u: int, i: int, j: int|
            0 <= u < r@.len() && 0 <= i < j < r@[u]@.len() ==> #[trigger] r@[u]@[i]
                != #[trigger] r@[u]@[j],
{
    let n = adj.len();
    let mut stamp: Vec<usize> = Vec::new();
    let mut k: usize = 0;
    while k < n
        invariant
            k <= n,
            stamp@.len() == k,
            forall|v: int| 0 <= v < k ==> #[trigger] stamp@[v] == 0,
        decreases n - k,
    {
        stamp.push(0);
        k += 1;
    }
    let mut out: Vec<Vec<usize>> = Vec::new();
    let mut u: usize = 0;
    while u < n
        invariant
            u <= n,
            n == adj@.len(),
            cycles::graph_ok(adj@),
            stamp@.len() == n,
            forall|v: int| 0 <= v < n ==> (#[trigger] stamp@[v]) <= u,
            out@.len() == u,
            forall|x: int, j: int|
                0 <= x < u && 0 <= j < out@[x]@.len() ==> (#[trigger] out@[x]@[j]) < n,
            forall|x: int, v: int|
                0 <= x < u ==> (#[trigger] has(out@[x]@, v) <==> has(adj@[x]@, v)),
            forall|x: int, i: int, j: int|
                0 <= x < u && 0 <= i < j < out@[x]@.len() ==> #[trigger] out@[x]@[i]
                    != #[trigger] out@[x]@[j],
        decreases n - u,
    {
        let mut list: Vec<usize> = Vec::new();
        let mut j: usize = 0;
        while j < adj[u].len()
            invariant
                u < n,
                n == adj@.len(),
                cycles::graph_ok(adj@),
                j <= adj@[u as int]@.len(),
                stamp@.len() == n,
                forall|v: int| 0 <= v < n ==> (#[trigger] stamp@[v]) <= u + 1,
                forall|v: int|
                    0 <= v < n ==> (#[trigger] stamp@[v] == u + 1 <==> has(list@, v)),
                forall|v: int| has(list@, v) <==> #[trigger] has(adj@[u as int]@.take(j as int), v),
                forall|i: int| 0 <= i < list@.len() ==> (#[trigger] list@[i]) < n,
                forall|a: int, b: int|
                    0 <= a < b < list@.len() ==> #[trigger] list@[a] != #[trigger] list@[b],
            decreases adj@[u as int]@.len() - j,
        {
            let v = adj[u][j];
            assert(adj@[u as int]@[j as int] < adj@.len());
            let ghost was = list@;
            let ghost st = stamp@;
            if stamp[v] != u + 1 {
                stamp.set(v, u + 1);
                list.push(v);
                proof {
                    lemma_has_push(was, v);
                    assert forall|a: int, b: int|
                        0 <= a < b < list@.len() implies #[trigger] list@[a]
                        != #[trigger] list@[b] by {
                        if b == was.len() && was[a] == v {
                            assert(has(was, v as int));
                        }
                    }
                }
            }
            proof {
                let ts = adj@[u as int]@;
                lemma_has_push(ts.take(j as int), v);
                assert(ts.take(j + 1) =~= ts.take(j as int).push(v));
                assert forall|w: int| has(list@, w) <==> #[trigger] has(ts.take(j + 1), w) by {
                    assert(has(was, w) <==> has(ts.take(j as int), w));
                }
            }
            j += 1;
        }
        proof {
            assert(adj@[u as int]@.take(adj@[u as int]@.len() as int) =~= adj@[u as int]@);
        }
        let ghost before = out@;
        out.push(list);
        proof {
            assert forall|x: int, v: int| 0 <= x < u + 1 implies (#[trigger] has(out@[x]@, v)
                <==> has(adj@[x]@, v)) by {
                if x < u {
                    assert(out@[x] == before[x]);
                    assert(has(before[x]@, v) <==> has(adj@[x]@, v));
                }
            }
            assert forall|x: int, i: int|
                0 <= x < u + 1 && 0 <= i < out@[x]@.len() implies (#[trigger] out@[x]@[i])
                < n by {
                if x < u {
                    assert(out@[x]@[i] == before[x]@[i]);
                }
            }
            assert forall|x: int, i: int, m: int|
                0 <= x < u + 1 && 0 <= i < m < out@[x]@.len() implies #[trigger] out@[x]@[i]
                != #[trigger] out@[x]@[m] by {
                if x < u {
                    assert(out@[x]@[i] == before[x]@[i] && out@[x]@[m] == before[x]@[m]);
                }
            }
        }
        u += 1;
    }
    proof {
        assert forall|x: int, v: int| #[trigger] cycles::edge(out@, x, v) <==> cycles::edge(
            adj@,
            x,
            v,
        ) by {
            if 0 <= x < n {
                assert(has(out@[x]@, v) <==> has(adj@[x]@, v));
            }
        }
    }
    out
}

/// The graph with every edge turned round.
pub fn reverse(adj: &Vec<Vec<usize>>) -> (r: Vec<Vec<usize>>)
    requires
        cycles::graph_ok(adj@),
    ensures
        cycles::graph_ok(r@),
        cycles::reversed(adj@, r@),
{
    let n = adj.len();
    let mut out: Vec<Vec<usize>> = Vec::new();
    let mut k: usize = 0;
    while k < n
        invariant
            k <= n,
            out@.len() == k,
            forall|v: int| 0 <= v < k ==> (#[trigger] out@[v])@.len() == 0,
        decreases n - k,
    {
        out.push(Vec::new());
        k += 1;
    }
    let mut u: usize = 0;
    while u < n
        invariant
            u <= n,
            n == adj@.len(),
            cycles::graph_ok(adj@),
            out@.len() == n,
            cycles::graph_ok(out@),
            forall|v: int, x: int|
                0 <= v < n ==> (#[trigger] has(out@[v]@, x) <==> 0 <= x < u && has(adj@[x]@, v)),
        decreases n - u,
    {
        let mut j: usize = 0;
        while j < adj[u].len()
            invariant
                u < n,
                n == adj@.len(),
                cycles::graph_ok(adj@),
                j <= adj@[u as int]@.len(),
                out@.len() == n,
                cycles::graph_ok(out@),
                forall|v: int, x: int|
                    0 <= v < n ==> (#[trigger] has(out@[v]@, x) <==> (0 <= x < u && has(
                        adj@[x]@,
                        v,
                    )) || (x == u && has(adj@[u as int]@.take(j as int), v))),
            decreases adj@[u as int]@.len() - j,
        {
            let v = adj[u][j];
            assert(adj@[u as int]@[j as int] < adj@.len());
            let ghost before = out@;
            out[v].push(u);
            proof {
                let ts = adj@[u as int]@;
                assert(out@[v as int]@ == before[v as int]@.push(u));
                lemma_has_push(before[v as int]@, u);
                lemma_has_push(ts.take(j as int), v);
                assert(ts.take(j + 1) =~= ts.take(j as int).push(v));
                assert forall|w: int, i: int|
                    0 <= w < out@.len() && 0 <= i < out@[w]@.len() implies (
                #[trigger] out@[w]@[i]) < out@.len() by {
                    if w != v {
                        assert(out@[w]@[i] == before[w]@[i]);
                    } else if i < before[w]@.len() {
                        assert(out@[w]@[i] == before[w]@[i]);
                    }
                }
                assert forall|w: int, x: int| 0 <= w < n implies (#[trigger] has(out@[w]@, x)
                    <==> (0 <= x < u && has(adj@[x]@, w)) || (x == u && has(
                    ts.take(j + 1),
                    w,
                ))) by {
                    assert(has(before[w]@, x) <==> (0 <= x < u && has(adj@[x]@, w)) || (x == u
                        && has(ts.take(j as int), w)));
                    assert(has(ts.take(j as int).push(v), w) <==> has(ts.take(j as int), w) || w
                        == v);
                    if w == v {
                        assert(has(before[w]@.push(u), x) <==> has(before[w]@, x) || x == u);
                    } else {
                        assert(out@[w] == before[w]);
                    }
                }
            }
            j += 1;
        }
        proof {
            assert(adj@[u as int]@.take(adj@[u as int]@.len() as int) =~= adj@[u as int]@);
        }
        u += 1;
    }
    proof {
        assert forall|x: int, v: int| #[trigger] cycles::edge(adj@, x, v) <==> cycles::edge(
            out@,
            v,
            x,
        ) by {
            if cycles::edge(adj@, x, v) {
                let j = choose|j: int| 0 <= j < adj@[x]@.len() && #[trigger] adj@[x]@[j] == v;
                assert(adj@[x]@[j] < adj@.len());
                assert(has(adj@[x]@, v));
                assert(has(out@[v]@, x));
            }
            if cycles::edge(out@, v, x) {
                assert(has(out@[v]@, x));
            }
        }
    }
    out
}

/// `v` stands in the list.
spec fn has(list: Seq<usize>, v: int) -> bool {
    exists|j: int| 0 <= j < list.len() && #[trigger] list[j] == v
}

proof fn lemma_has_push(list: Seq<usize>, v: usize)
    ensures
        forall|w: int| #[trigger] has(list.push(v), w) <==> has(list, w) || w == v,
{
    let next = list.push(v);
    assert forall|w: int| #[trigger] has(next, w) <==> has(list, w) || w == v by {
        if has(list, w) {
            let j = choose|j: int| 0 <= j < list.len() && #[trigger] list[j] == w;
            assert(next[j] == w);
        }
        if w == v {
            assert(next[list.len() as int] == w);
        }
        if has(next, w) && w != v {
            let j = choose|j: int| 0 <= j < next.len() && #[trigger] next[j] == w;
            assert(list[j] == w);
        }
    }
}

} // verus!
