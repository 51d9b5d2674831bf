//! How deep in the graph a symbol lies: the largest `k` for which it belongs
//! to a group of symbols that each have `k` neighbours in the group.

use crate::cycles;
use crate::digraph;
use crate::digraph::{Arc, Digraph, EdgeRow};
use crate::names::NameTable;
use crate::text;
use crate::types;
use crate::types::EdgeConfidence;
use vstd::prelude::*;

verus! {

// ---------------------------------------------------------------------------
// Cores of a graph over numbers
// ---------------------------------------------------------------------------

/// The neighbours of `u`.
pub open spec fn near(adj: Seq<Vec<usize>>, u: int) -> spec_fn(int) -> bool {
    |v: int| cycles::edge(adj, u, v)
}

/// How many neighbours `u` has in `s`.
pub open spec fn degree_in(adj: Seq<Vec<usize>>, s: Set<int>, u: int) -> nat {
    s.filter(near(adj, u)).len()
}

/// Every node of `s` has at least `k` neighbours in `s`.
pub open spec fn is_core(adj: Seq<Vec<usize>>, s: Set<int>, k: nat) -> bool {
    s.finite() && forall|u: int| #[trigger]
        s.contains(u) ==> 0 <= u < adj.len() && degree_in(adj, s, u) >= k
}

/// `u` belongs to some group in which everyone has `k` neighbours.
pub open spec fn in_core(adj: Seq<Vec<usize>>, u: int, k: nat) -> bool {
    exists|s: Set<int>| #[trigger] is_core(adj, s, k) && s.contains(u)
}

/// An undirected graph without loops, each neighbour listed once.
pub open spec fn simple(adj: Seq<Vec<usize>>) -> bool {
    &&& cycles::graph_ok(adj)
    &&& forall|u: int, v: int| #[trigger] cycles::edge(adj, u, v) ==> cycles::edge(adj, v, u)
    &&& forall|u: int| !#[trigger] cycles::edge(adj, u, u)
    &&& forall|u: int, i: int, j: int|
        0 <= u < adj.len() && 0 <= i < j < adj[u]@.len() ==> #[trigger] adj[u]@[i]
            != #[trigger] adj[u]@[j]
}

/// The nodes that are not marked.
spec fn rest(done: Seq<bool>) -> Set<int> {
    Set::new(|u: int| 0 <= u < done.len() && !done[u])
}

proof fn lemma_rest_finite(done: Seq<bool>)
    ensures
        rest(done).finite(),
{
    vstd::set_lib::lemma_int_range(0, done.len() as int);
    let all = vstd::set_lib::set_int_range(0, done.len() as int);
    assert(rest(done).subset_of(all));
    vstd::set_lib::lemma_set_subset_finite(all, rest(done));
}

/// A smaller group leaves no one more neighbours.
proof fn lemma_degree_monotone(adj: Seq<Vec<usize>>, a: Set<int>, b: Set<int>, u: int)
    requires
        a.subset_of(b),
        b.finite(),
    ensures
        degree_in(adj, a, u) <= degree_in(adj, b, u),
{
    let x = a.filter(near(adj, u));
    let y = b.filter(near(adj, u));
    assert(x.subset_of(y));
    vstd::set_lib::lemma_set_subset_finite(b, y);
    vstd::set_lib::lemma_len_subset(x, y);
}

/// Taking `v` out of a group takes one neighbour from each of its neighbours.
proof fn lemma_degree_remove(adj: Seq<Vec<usize>>, s: Set<int>, v: int, u: int)
    requires
        s.finite(),
        s.contains(v),
    ensures
        degree_in(adj, s.remove(v), u) == degree_in(adj, s, u) - if cycles::edge(adj, u, v) {
            1int
        } else {
            0
        },
{
    let x = s.filter(near(adj, u));
    vstd::set_lib::lemma_set_subset_finite(s, x);
    let y = s.remove(v).filter(near(adj, u));
    assert(y =~= x.remove(v));
    if !cycles::edge(adj, u, v) {
        assert(y =~= x);
    }
}

/// A group with more neighbours each is one with fewer.
proof fn lemma_core_weaken(adj: Seq<Vec<usize>>, s: Set<int>, a: nat, b: nat)
    requires
        is_core(adj, s, a),
        b <= a,
    ensures
        is_core(adj, s, b),
{
}

/// The listed neighbours are all the neighbours.
proof fn lemma_full_degree(adj: Seq<Vec<usize>>, all: Set<int>, u: int)
    requires
        simple(adj),
        0 <= u < adj.len(),
        forall|v: int| #[trigger] all.contains(v) <==> 0 <= v < adj.len(),
    ensures
        degree_in(adj, all, u) == adj[u]@.len(),
{
    let s = adj[u]@.map_values(|x: usize| x as int);
    assert(s.no_duplicates()) by {
        assert forall|i: int, j: int|
            0 <= i < s.len() && 0 <= j < s.len() && i != j implies s[i] != s[j] by {
            if i < j {
                assert(adj[u]@[i] != adj[u]@[j]);
            } else {
                assert(adj[u]@[j] != adj[u]@[i]);
            }
        }
    }
    s.unique_seq_to_set();
    let y = all.filter(near(adj, u));
    assert forall|v: int| s.to_set().contains(v) <==> y.contains(v) by {
        if s.to_set().contains(v) {
            let i = choose|i: int| 0 <= i < s.len() && s[i] == v;
            assert(adj[u]@[i] == v);
        }
        if y.contains(v) {
            let i = choose|i: int| 0 <= i < adj[u]@.len() && #[trigger] adj[u]@[i] == v;
            assert(s[i] == v);
        }
    }
    assert(s.to_set() =~= y);
}

/// Where the counts of the remaining nodes stand while level `k` is peeled:
/// above `k` they are exact, at `k` they may be too high.
spec fn counted(
    adj: Seq<Vec<usize>>,
    done: Seq<bool>,
    degree: Seq<usize>,
    k: int,
    top: int,
) -> bool {
    forall|u: int|
        0 <= u < done.len() && !done[u] ==> {
            &&& k <= (#[trigger] degree[u]) <= top
            &&& degree[u] > k ==> degree[u] == degree_in(adj, rest(done), u)
            &&& degree[u] == k ==> degree_in(adj, rest(done), u) <= k
        }
}

/// `u` stands in the bucket.
spec fn waits(bucket: Seq<usize>, u: int) -> bool {
    exists|j: int| 0 <= j < bucket.len() && #[trigger] bucket[j] == u
}

/// Every remaining node waits in the bucket of its count; in the bucket of
/// level `k`, at or behind position `i`.
spec fn queued(
    done: Seq<bool>,
    degree: Seq<usize>,
    buckets: Seq<Vec<usize>>,
    k: int,
    i: int,
) -> bool {
    &&& forall|d: int, j: int|
        0 <= d < buckets.len() && 0 <= j < buckets[d]@.len() ==> (#[trigger] buckets[d]@[j])
            < done.len()
    &&& forall|u: int|
        0 <= u < done.len() && !done[u] && (#[trigger] degree[u]) > k ==> degree[u] < buckets.len()
            && exists|j: int|
            0 <= j < buckets[degree[u] as int]@.len() && #[trigger] buckets[degree[u] as int]@[j]
                == u
    &&& forall|u: int|
        0 <= u < done.len() && !done[u] && (#[trigger] degree[u]) == k ==> exists|j: int|
            i <= j < buckets[k]@.len() && #[trigger] buckets[k]@[j] == u
}

/// The nodes peeled so far have their core number.
spec fn peeled(adj: Seq<Vec<usize>>, done: Seq<bool>, core: Seq<usize>, k: int) -> bool {
    forall|u: int|
        0 <= u < done.len() && done[u] ==> (#[trigger] core[u]) <= k && in_core(
            adj,
            u,
            core[u] as nat,
        ) && !in_core(adj, u, (core[u] + 1) as nat)
}

/// Lower the counts of the neighbours of `v`, which was just peeled.
fn relax(
    adj: &Vec<Vec<usize>>,
    v: usize,
    k: usize,
    i: usize,
    top: Ghost<int>,
    done: &Vec<bool>,
    degree: &mut Vec<usize>,
    buckets: &mut Vec<Vec<usize>>,
)
    requires
        simple(adj@),
        v < adj@.len(),
        done@.len() == adj@.len(),
        done@[v as int],
        old(degree)@.len() == adj@.len(),
        k < old(buckets)@.len(),
        old(buckets)@.len() == top@ + 1,
        i <= old(buckets)@[k as int]@.len(),
        queued(done@, old(degree)@, old(buckets)@, k as int, i as int),
        forall|u: int|
            0 <= u < done@.len() && !done@[u] ==> {
                &&& k <= (#[trigger] old(degree)@[u]) <= top@
                &&& old(degree)@[u] > k ==> old(degree)@[u] == degree_in(adj@, rest(done@), u)
                    + if cycles::edge(adj@, v as int, u) {
                    1int
                } else {
                    0
                }
                &&& old(degree)@[u] == k ==> degree_in(adj@, rest(done@), u) <= k
            },
    ensures
        final(degree)@.len() == adj@.len(),
        final(buckets)@.len() == old(buckets)@.len(),
        final(buckets)@[k as int]@.len() >= old(buckets)@[k as int]@.len(),
        counted(adj@, done@, final(degree)@, k as int, top@),
        queued(done@, final(degree)@, final(buckets)@, k as int, i as int),
{
    let ghost start = buckets@[k as int]@.len();
    let mut j: usize = 0;
    while j < adj[v].len()
        invariant
            j <= adj@[v as int]@.len(),
            simple(adj@),
            v < adj@.len(),
            done@.len() == adj@.len(),
            degree@.len() == adj@.len(),
            k < buckets@.len(),
            buckets@.len() == top@ + 1,
            buckets@.len() == old(buckets)@.len(),
            start <= buckets@[k as int]@.len(),
            i <= start,
            queued(done@, degree@, buckets@, k as int, i as int),
            forall|u: int|
                0 <= u < done@.len() && !done@[u] ==> {
                    let open = exists|a: int|
                        j <= a < adj@[v as int]@.len() && #[trigger] adj@[v as int]@[a] == u;
                    &&& k <= (#[trigger] degree@[u]) <= top@
                    &&& degree@[u] > k ==> degree@[u] == degree_in(adj@, rest(done@), u)
                        + if open {
                        1int
                    } else {
                        0
                    }
                    &&& degree@[u] == k ==> degree_in(adj@, rest(done@), u) <= k
                },
        decreases adj@[v as int]@.len() - j,
    {
        let u = adj[v][j];
        assert(adj@[v as int]@[j as int] < adj@.len());
        let ghost deg0 = degree@;
        let ghost buk0 = buckets@;
        if !done[u] && degree[u] > k {
            let d = degree[u] - 1;
            degree.set(u, d);
            buckets[d].push(u);
            proof {
                assert(buckets@[d as int]@ == buk0[d as int]@.push(u));
                assert forall|e: int, a: int|
                    0 <= e < buckets@.len() && 0 <= a < buckets@[e]@.len() implies (
                #[trigger] buckets@[e]@[a]) < done@.len() by {
                    if e != d {
                        assert(buckets@[e] == buk0[e]);
                    } else if a < buk0[e]@.len() {
                        assert(buckets@[e]@[a] == buk0[e]@[a]);
                    }
                }
                assert forall|w: int|
                    0 <= w < done@.len() && !done@[w] && (#[trigger] degree@[w])
                        > k implies degree@[w] < buckets@.len() && exists|a: int|
                    0 <= a < buckets@[degree@[w] as int]@.len()
                        && #[trigger] buckets@[degree@[w] as int]@[a] == w by {
                    if w == u {
                        assert(buckets@[d as int]@[buk0[d as int]@.len() as int] == u);
                    } else {
                        assert(degree@[w] == deg0[w]);
                        let e = deg0[w] as int;
                        let a = choose|a: int|
                            0 <= a < buk0[e]@.len() && #[trigger] buk0[e]@[a] == w;
                        assert(buckets@[e]@[a] == w);
                    }
                }
                assert forall|w: int|
                    0 <= w < done@.len() && !done@[w] && (#[trigger] degree@[w])
                        == k implies exists|a: int|
                    i <= a < buckets@[k as int]@.len() && #[trigger] buckets@[k as int]@[a] == w by {
                    if w == u {
                        assert(buckets@[k as int]@[buk0[k as int]@.len() as int] == u);
                    } else {
                        assert(degree@[w] == deg0[w]);
                        let a = choose|a: int|
                            i <= a < buk0[k as int]@.len() && #[trigger] buk0[k as int]@[a] == w;
                        assert(buckets@[k as int]@[a] == w);
                    }
                }
            }
        }
        proof {
            assert forall|w: int| 0 <= w < done@.len() && !done@[w] implies ({
                let open = exists|a: int|
                    j + 1 <= a < adj@[v as int]@.len() && #[trigger] adj@[v as int]@[a] == w;
                &&& k <= (#[trigger] degree@[w]) <= top@
                &&& degree@[w] > k ==> degree@[w] == degree_in(adj@, rest(done@), w) + if open {
                    1int
                } else {
                    0
                }
                &&& degree@[w] == k ==> degree_in(adj@, rest(done@), w) <= k
            }) by {
                assert(k <= deg0[w] <= top@);
                if w == u {
                    assert(adj@[v as int]@[j as int] == w);
                    if exists|a: int|
                        j + 1 <= a < adj@[v as int]@.len() && #[trigger] adj@[v as int]@[a] == w {
                        let a = choose|a: int|
                            j + 1 <= a < adj@[v as int]@.len() && #[trigger] adj@[v as int]@[a]
                                == w;
                        assert(adj@[v as int]@[j as int] != adj@[v as int]@[a]);
                    }
                } else {
                    assert(degree@[w] == deg0[w]);
                    if exists|a: int|
                        j <= a < adj@[v as int]@.len() && #[trigger] adj@[v as int]@[a] == w {
                        let a = choose|a: int|
                            j <= a < adj@[v as int]@.len() && #[trigger] adj@[v as int]@[a] == w;
                        assert(a != j);
                    }
                }
            }
        }
        j += 1;
    }
}

/// The core number of every node.
pub fn peel_kcore(adj: &Vec<Vec<usize>>) -> (core: Vec<usize>)
    requires
        simple(adj@),
    ensures
        core@.len() == adj@.len(),
        forall|u: int|
            0 <= u < core@.len() ==> in_core(adj@, u, (#[trigger] core@[u]) as nat) && !in_core(
                adj@,
                u,
                (core@[u] + 1) as nat,
            ),
{
    let n = adj.len();
    let mut degree: Vec<usize> = Vec::new();
    let mut core: Vec<usize> = Vec::new();
    let mut done: Vec<bool> = Vec::new();
    let mut top: usize = 0;
    let mut a: usize = 0;
    while a < n
        invariant
            a <= n,
            n == adj@.len(),
            degree@.len() == a,
            core@.len() == a,
            done@.len() == a,
            forall|u: int| 0 <= u < a ==> #[trigger] degree@[u] == adj@[u]@.len(),
            forall|u: int| 0 <= u < a ==> (#[trigger] degree@[u]) <= top,
            forall|u: int| 0 <= u < a ==> !(#[trigger] done@[u]),
            top < usize::MAX,
            top == 0 || exists|u: int| 0 <= u < a && #[trigger] adj@[u]@.len() == top,
            simple(adj@),
        decreases n - a,
    {
        let d = adj[a].len();
        degree.push(d);
        core.push(0);
        done.push(false);
        if d > top {
            proof {
                lemma_degree_below(adj@, a as int);
                assert(adj@[a as int]@.len() == d);
            }
            top = d;
        } else if top > 0 {
            proof {
                let u = choose|u: int| 0 <= u < a && #[trigger] adj@[u]@.len() == top;
                assert(adj@[u]@.len() == top);
            }
        }
        a += 1;
    }
    let mut buckets: Vec<Vec<usize>> = Vec::new();
    let mut b: usize = 0;
    while b <= top
        invariant
            b <= top + 1,
            top < usize::MAX,
            buckets@.len() == b,
            forall|d: int| 0 <= d < b ==> (#[trigger] buckets@[d])@.len() == 0,
        decreases top + 1 - b,
    {
        buckets.push(Vec::new());
        b += 1;
    }
    let mut c: usize = 0;
    while c < n
        invariant
            c <= n,
            n == degree@.len(),
            buckets@.len() == top + 1,
            forall|u: int| 0 <= u < n ==> (#[trigger] degree@[u]) <= top,
            forall|d: int, j: int|
                0 <= d < buckets@.len() && 0 <= j < buckets@[d]@.len() ==> (
                #[trigger] buckets@[d]@[j]) < n,
            forall|u: int|
                0 <= u < c ==> waits(buckets@[(#[trigger] degree@[u]) as int]@, u),
        decreases n - c,
    {
        let d = degree[c];
        let ghost before = buckets@;
        buckets[d].push(c);
        proof {
            assert forall|e: int, j: int|
                0 <= e < buckets@.len() && 0 <= j < buckets@[e]@.len() implies (
            #[trigger] buckets@[e]@[j]) < n by {
                if e != d {
                    assert(buckets@[e] == before[e]);
                } else if j < before[e]@.len() {
                    assert(buckets@[e]@[j] == before[e]@[j]);
                }
            }
            assert forall|u: int| 0 <= u < c + 1 implies waits(
                buckets@[(#[trigger] degree@[u]) as int]@,
                u,
            ) by {
                let e = degree@[u] as int;
                assert(buckets@[d as int]@ == before[d as int]@.push(c));
                if u == c {
                    assert(buckets@[e]@[before[e]@.len() as int] == u);
                } else {
                    let j = choose|j: int|
                        0 <= j < before[e]@.len() && #[trigger] before[e]@[j] == u;
                    assert(buckets@[e]@[j] == u);
                }
            }
        }
        c += 1;
    }
    let ghost mut level: Set<int> = rest(done@);
    proof {
        lemma_rest_finite(done@);
        assert forall|u: int| 0 <= u < n implies #[trigger] degree@[u] == degree_in(
            adj@,
            rest(done@),
            u,
        ) by {
            lemma_full_degree(adj@, rest(done@), u);
        }
        assert(is_core(adj@, level, 0));
        assert(queued(done@, degree@, buckets@, 0, 0)) by {
            assert forall|u: int| 0 <= u < n implies exists|j: int|
                0 <= j < buckets@[(#[trigger] degree@[u]) as int]@.len()
                    && #[trigger] buckets@[degree@[u] as int]@[j] == u by {
                assert(waits(buckets@[degree@[u] as int]@, u));
            }
        }
    }
    let mut k: usize = 0;
    while k <= top
        invariant
            k <= top + 1,
            top < usize::MAX,
            n == adj@.len(),
            simple(adj@),
            degree@.len() == n,
            core@.len() == n,
            done@.len() == n,
            buckets@.len() == top + 1,
            counted(adj@, done@, degree@, k as int, top as int),
            k <= top ==> queued(done@, degree@, buckets@, k as int, 0),
            peeled(adj@, done@, core@, k as int),
            is_core(adj@, level, k as nat),
            rest(done@).subset_of(level),
        decreases top + 1 - k,
    {
        let mut i: usize = 0;
        while i < buckets[k].len()
            invariant
                k <= top,
                i <= buckets@[k as int]@.len(),
                n == adj@.len(),
                simple(adj@),
                degree@.len() == n,
                core@.len() == n,
                done@.len() == n,
                buckets@.len() == top + 1,
                counted(adj@, done@, degree@, k as int, top as int),
                queued(done@, degree@, buckets@, k as int, i as int),
                peeled(adj@, done@, core@, k as int),
                is_core(adj@, level, k as nat),
                rest(done@).subset_of(level),
            decreases cycles::unmarked(done@), buckets@[k as int]@.len() - i,
        {
            let v = buckets[k][i];
            assert(buckets@[k as int]@[i as int] < done@.len());
            let ghost was = done@;
            i += 1;
            if !done[v] && degree[v] == k {
                proof {
                    lemma_peel(adj@, done@, degree@, core@, k as int, top as int, level, v as int);
                    cycles::lemma_unmarked_set(was, v as int);
                }
                done.set(v, true);
                core.set(v, k);
                proof {
                    assert(rest(done@) =~= rest(was).remove(v as int));
                    lemma_rest_finite(was);
                    assert forall|u: int| 0 <= u < done@.len() && !done@[u] implies ({
                        &&& k <= (#[trigger] degree@[u]) <= top
                        &&& degree@[u] > k ==> degree@[u] == degree_in(adj@, rest(done@), u)
                            + if cycles::edge(adj@, v as int, u) {
                            1int
                        } else {
                            0
                        }
                        &&& degree@[u] == k ==> degree_in(adj@, rest(done@), u) <= k
                    }) by {
                        assert(!was[u]);
                        lemma_degree_remove(adj@, rest(was), v as int, u);
                        assert(cycles::edge(adj@, u, v as int) <==> cycles::edge(
                            adj@,
                            v as int,
                            u,
                        ));
                    }
                    assert(queued(done@, degree@, buckets@, k as int, i as int)) by {
                        assert forall|u: int|
                            0 <= u < done@.len() && !done@[u] && (#[trigger] degree@[u])
                                == k implies exists|j: int|
                            i <= j < buckets@[k as int]@.len() && #[trigger] buckets@[k as int]@[j]
                                == u by {
                            let j = choose|j: int|
                                i - 1 <= j < buckets@[k as int]@.len()
                                    && #[trigger] buckets@[k as int]@[j] == u;
                            assert(j != i - 1);
                        }
                    }
                }
                relax(adj, v, k, i, Ghost(top as int), &done, &mut degree, &mut buckets);
            } else {
                proof {
                    assert forall|u: int|
                        0 <= u < done@.len() && !done@[u] && (#[trigger] degree@[u])
                            == k implies exists|j: int|
                        i <= j < buckets@[k as int]@.len() && #[trigger] buckets@[k as int]@[j]
                            == u by {
                        let j = choose|j: int|
                            i - 1 <= j < buckets@[k as int]@.len()
                                && #[trigger] buckets@[k as int]@[j] == u;
                        assert(j != i - 1);
                    }
                }
            }
        }
        proof {
            assert forall|u: int| 0 <= u < n && !done@[u] implies (#[trigger] degree@[u])
                > k by {
                if degree@[u] == k {
                    let j = choose|j: int|
                        i <= j < buckets@[k as int]@.len() && #[trigger] buckets@[k as int]@[j]
                            == u;
                }
            }
            lemma_rest_finite(done@);
            level = rest(done@);
            assert forall|u: int| #[trigger] level.contains(u) implies 0 <= u < adj@.len()
                && degree_in(adj@, level, u) >= k + 1 by {
                assert(degree@[u] > k);
            }
            if k + 1 <= top {
                assert(queued(done@, degree@, buckets@, k + 1, 0)) by {
                    assert forall|u: int|
                        0 <= u < done@.len() && !done@[u] && (#[trigger] degree@[u])
                            == k + 1 implies exists|j: int|
                        0 <= j < buckets@[k + 1]@.len() && #[trigger] buckets@[k + 1]@[j] == u by {
                        assert(degree@[u] > k);
                        let j = choose|j: int|
                            0 <= j < buckets@[degree@[u] as int]@.len()
                                && #[trigger] buckets@[degree@[u] as int]@[j] == u;
                        assert(buckets@[k + 1]@[j] == u);
                    }
                }
            }
            assert(peeled(adj@, done@, core@, k + 1));
        }
        k += 1;
    }
    proof {
        assert forall|u: int| 0 <= u < n implies done@[u] by {
            if !done@[u] {
                assert(k <= degree@[u] <= top);
            }
        }
    }
    core
}

/// No node has more neighbours than there are nodes.
proof fn lemma_degree_below(adj: Seq<Vec<usize>>, u: int)
    requires
        simple(adj),
        0 <= u < adj.len(),
    ensures
        adj[u]@.len() < adj.len(),
{
    let all = vstd::set_lib::set_int_range(0, adj.len() as int);
    vstd::set_lib::lemma_int_range(0, adj.len() as int);
    lemma_full_degree(adj, all, u);
    let y = all.filter(near(adj, u));
    assert(!cycles::edge(adj, u, u));
    assert(y.subset_of(all.remove(u)));
    vstd::set_lib::lemma_len_subset(y, all.remove(u));
}

/// A remaining node whose count has come down to `k` has core number `k`.
proof fn lemma_peel(
    adj: Seq<Vec<usize>>,
    done: Seq<bool>,
    degree: Seq<usize>,
    core: Seq<usize>,
    k: int,
    top: int,
    level: Set<int>,
    v: int,
)
    requires
        done.len() == adj.len(),
        0 <= k,
        counted(adj, done, degree, k, top),
        peeled(adj, done, core, k),
        is_core(adj, level, k as nat),
        rest(done).subset_of(level),
        0 <= v < done.len(),
        !done[v],
        degree[v] == k,
    ensures
        in_core(adj, v, k as nat),
        !in_core(adj, v, (k + 1) as nat),
{
    assert(rest(done).contains(v));
    assert(level.contains(v));
    if in_core(adj, v, (k + 1) as nat) {
        let s = choose|s: Set<int>| #[trigger] is_core(adj, s, (k + 1) as nat) && s.contains(v);
        assert forall|w: int| #[trigger] s.contains(w) implies rest(done).contains(w) by {
            if done[w] {
                lemma_core_weaken(adj, s, (k + 1) as nat, (core[w] + 1) as nat);
                assert(in_core(adj, w, (core[w] + 1) as nat));
            }
        }
        lemma_rest_finite(done);
        lemma_degree_monotone(adj, s, rest(done), v);
        assert(degree_in(adj, s, v) >= k + 1);
    }
}

// ---------------------------------------------------------------------------
// Cores of the call graph
// ---------------------------------------------------------------------------

/// Does a stored edge count? Never one that was proven not to exist, nor one
/// from a symbol to itself. In the strict graph an edge must also confirm
/// something; a confidence that is not known by name is taken to do so.
pub open spec fn counts(strict: bool, r: EdgeRow) -> bool {
    &&& !r.ruled_out_by_scip
    &&& r.from_symbol@ != r.to_symbol@
    &&& strict ==> (match types::parsed(r.edge_confidence@) {
        Some(c) => types::rank_of(c) > 0,
        None => true,
    })
}

/// The undirected graph of the edges that count: each as two arcs.
pub open spec fn links(rows: Seq<EdgeRow>, strict: bool) -> Seq<Arc>
    decreases rows.len(),
{
    if rows.len() == 0 {
        seq![]
    } else {
        let init = links(rows.drop_last(), strict);
        let r = rows.last();
        if counts(strict, r) {
            init.push((r.from_symbol@, r.to_symbol@)).push((r.to_symbol@, r.from_symbol@))
        } else {
            init
        }
    }
}

/// The neighbours of `a`.
pub open spec fn beside(arcs: Seq<Arc>, a: Seq<char>) -> spec_fn(Seq<char>) -> bool {
    |b: Seq<char>| arcs.contains((a, b))
}

/// Every symbol of `s` has at least `k` neighbours in `s`.
pub open spec fn is_group(arcs: Seq<Arc>, s: Set<Seq<char>>, k: nat) -> bool {
    s.finite() && forall|a: Seq<char>| #[trigger]
        s.contains(a) ==> s.filter(beside(arcs, a)).len() >= k
}

/// `a` belongs to a group in which everyone has `k` neighbours.
pub open spec fn in_group(arcs: Seq<Arc>, a: Seq<char>, k: nat) -> bool {
    exists|s: Set<Seq<char>>| #[trigger] is_group(arcs, s, k) && s.contains(a)
}

/// `k` is the largest number for which `a` belongs to such a group.
pub open spec fn is_core_number(arcs: Seq<Arc>, a: Seq<char>, k: nat) -> bool {
    in_group(arcs, a, k) && !in_group(arcs, a, k + 1)
}

spec fn name_at(nodes: Seq<Seq<char>>) -> spec_fn(int) -> Seq<char> {
    |i: int| nodes[i]
}

/// A group of numbered nodes is a group of their names.
proof fn lemma_core_to_group(
    nodes: Seq<Seq<char>>,
    adj: Seq<Vec<usize>>,
    arcs: Seq<Arc>,
    s: Set<int>,
    k: nat,
)
    requires
        digraph::depicts(nodes, adj, arcs),
        digraph::all_distinct(nodes),
        is_core(adj, s, k),
    ensures
        is_group(arcs, s.map(name_at(nodes)), k),
{
    let f = name_at(nodes);
    let t = s.map(f);
    assert(vstd::relations::injective_on(f, s)) by {
        assert forall|x: int, y: int|
            s.contains(x) && s.contains(y) && #[trigger] f(x) == #[trigger] f(y) implies x == y by {
            if x < y {
                assert(nodes[x] != nodes[y]);
            } else if y < x {
                assert(nodes[y] != nodes[x]);
            }
        }
    }
    vstd::set_lib::lemma_map_size(s, t, f);
    assert forall|a: Seq<char>| #[trigger] t.contains(a) implies t.filter(beside(arcs, a)).len()
        >= k by {
        let u = choose|u: int| s.contains(u) && a == f(u);
        let x = s.filter(near(adj, u));
        let y = t.filter(beside(arcs, a));
        vstd::set_lib::lemma_set_subset_finite(s, x);
        assert forall|b: Seq<char>| x.map(f).contains(b) <==> y.contains(b) by {
            if x.map(f).contains(b) {
                let v = choose|v: int| x.contains(v) && b == f(v);
                assert(cycles::edge(adj, u, v));
                assert(s.contains(v));
                assert(t.contains(b));
            }
            if y.contains(b) {
                let v = choose|v: int| s.contains(v) && b == f(v);
                assert(s.contains(v));
                assert(cycles::edge(adj, u, v));
                assert(x.contains(v));
            }
        }
        assert(x.map(f) =~= y);
        assert(vstd::relations::injective_on(f, x));
        vstd::set_lib::lemma_map_size(x, y, f);
    }
}

/// The numbers of the nodes whose names are in `t`.
spec fn numbers_of(nodes: Seq<Seq<char>>, t: Set<Seq<char>>) -> Set<int> {
    Set::new(|i: int| 0 <= i < nodes.len() && t.contains(nodes[i]))
}

/// A group of names with at least one neighbour each is a group of nodes.
proof fn lemma_group_to_core(
    nodes: Seq<Seq<char>>,
    adj: Seq<Vec<usize>>,
    arcs: Seq<Arc>,
    t: Set<Seq<char>>,
    k: nat,
)
    requires
        digraph::depicts(nodes, adj, arcs),
        digraph::all_distinct(nodes),
        is_group(arcs, t, k),
        k > 0,
    ensures
        is_core(adj, numbers_of(nodes, t), k),
{
    let f = name_at(nodes);
    let s = numbers_of(nodes, t);
    let all = vstd::set_lib::set_int_range(0, nodes.len() as int);
    vstd::set_lib::lemma_int_range(0, nodes.len() as int);
    assert(s.subset_of(all));
    vstd::set_lib::lemma_set_subset_finite(all, s);
    assert(vstd::relations::injective_on(f, s)) by {
        assert forall|x: int, y: int|
            s.contains(x) && s.contains(y) && #[trigger] f(x) == #[trigger] f(y) implies x == y by {
            if x < y {
                assert(nodes[x] != nodes[y]);
            } else if y < x {
                assert(nodes[y] != nodes[x]);
            }
        }
    }
    assert forall|u: int| #[trigger] s.contains(u) implies 0 <= u < adj.len() && degree_in(
        adj,
        s,
        u,
    ) >= k by {
        let a = nodes[u];
        let x = s.filter(near(adj, u));
        let y = t.filter(beside(arcs, a));
        vstd::set_lib::lemma_set_subset_finite(s, x);
        assert forall|b: Seq<char>| x.map(f).contains(b) <==> y.contains(b) by {
            if x.map(f).contains(b) {
                let v = choose|v: int| x.contains(v) && b == f(v);
                assert(cycles::edge(adj, u, v));
            }
            if y.contains(b) {
                assert(arcs.contains((a, b)));
                let i = choose|i: int| 0 <= i < arcs.len() && arcs[i] == (a, b);
                assert(nodes.contains(arcs[i].1));
                let v = choose|v: int| 0 <= v < nodes.len() && nodes[v] == b;
                assert(cycles::edge(adj, u, v));
                assert(x.contains(v));
                assert(b == f(v));
            }
        }
        assert(x.map(f) =~= y);
        assert(vstd::relations::injective_on(f, x));
        vstd::set_lib::lemma_map_size(x, y, f);
        assert(t.contains(a));
    }
}

/// The core number of a node is that of its name.
proof fn lemma_core_of_name(
    nodes: Seq<Seq<char>>,
    adj: Seq<Vec<usize>>,
    arcs: Seq<Arc>,
    u: int,
    k: nat,
)
    requires
        digraph::depicts(nodes, adj, arcs),
        digraph::all_distinct(nodes),
        0 <= u < nodes.len(),
    ensures
        in_core(adj, u, k) <==> in_group(arcs, nodes[u], k),
{
    let a = nodes[u];
    if in_core(adj, u, k) {
        let s = choose|s: Set<int>| #[trigger] is_core(adj, s, k) && s.contains(u);
        lemma_core_to_group(nodes, adj, arcs, s, k);
        assert(name_at(nodes)(u) == a);
        assert(s.map(name_at(nodes)).contains(a));
    }
    if in_group(arcs, a, k) {
        if k == 0 {
            let one = Set::<int>::empty().insert(u);
            assert(is_core(adj, one, 0));
            assert(one.contains(u));
        } else {
            let t = choose|t: Set<Seq<char>>| #[trigger] is_group(arcs, t, k) && t.contains(a);
            lemma_group_to_core(nodes, adj, arcs, t, k);
            assert(numbers_of(nodes, t).contains(u));
        }
    }
}

/// Every link goes both ways, and none leads to its own start.
proof fn lemma_links_symmetric(rows: Seq<EdgeRow>, strict: bool, a: Seq<char>, b: Seq<char>)
    requires
        links(rows, strict).contains((a, b)),
    ensures
        links(rows, strict).contains((b, a)),
        a != b,
    decreases rows.len(),
{
    let init = links(rows.drop_last(), strict);
    let all = links(rows, strict);
    let i = choose|i: int| 0 <= i < all.len() && all[i] == (a, b);
    if i < init.len() {
        assert(init[i] == (a, b));
        lemma_links_symmetric(rows.drop_last(), strict, a, b);
        let j = choose|j: int| 0 <= j < init.len() && init[j] == (b, a);
        assert(all[j] == (b, a));
    } else if i == init.len() {
        assert(all[i + 1] == (b, a));
    } else {
        assert(all[i - 1] == (b, a));
    }
}

fn is_counted(strict: bool, r: &EdgeRow) -> (b: bool)
    ensures
        b == counts(strict, *r),
{
    if r.ruled_out_by_scip || text::str_eq(r.from_symbol.as_str(), r.to_symbol.as_str()) {
        return false;
    }
    if !strict {
        return true;
    }
    match EdgeConfidence::parse(r.edge_confidence.as_str()) {
        Some(c) => c.rank() > 0,
        None => true,
    }
}

/// The core number of every symbol that has a link.
pub struct CoreNumbers {
    nodes: NameTable,
    core: Vec<usize>,
}

impl CoreNumbers {
    /// The symbols with a link, each with its core number.
    pub closed spec fn view(&self) -> Map<Seq<char>, nat> {
        Map::new(
            |a: Seq<char>| self.nodes@.contains(a),
            |a: Seq<char>| self.core@[self.nodes@.index_of(a)] as nat,
        )
    }

    pub closed spec fn wf(&self) -> bool {
        self.nodes.wf() && self.core@.len() == self.nodes@.len()
    }

    proof fn lemma_at(&self, i: int)
        requires
            self.wf(),
            0 <= i < self.nodes@.len(),
        ensures
            self@.contains_key(self.nodes@[i]),
            self@[self.nodes@[i]] == self.core@[i],
    {
        let a = self.nodes@[i];
        assert(self.nodes@.contains(a));
        let j = self.nodes@.index_of(a);
        assert(0 <= j < self.nodes@.len() && self.nodes@[j] == a);
        self.nodes.lemma_distinct(i, j);
    }

    /// How many symbols have a link.
    pub fn len(&self) -> (r: usize)
        requires
            self.wf(),
        ensures
            r == self.names().len(),
    {
        self.nodes.len()
    }

    /// The symbols with a link, each once.
    pub closed spec fn names(&self) -> Seq<Seq<char>> {
        self.nodes@
    }

    pub fn name(&self, i: usize) -> (r: &String)
        requires
            self.wf(),
            i < self.names().len(),
        ensures
            r@ == self.names()[i as int],
            self@.contains_key(r@),
    {
        proof {
            self.lemma_at(i as int);
        }
        self.nodes.name(i)
    }

    /// The core number of a symbol, if it has a link.
    pub fn get(&self, a: &str) -> (r: Option<usize>)
        requires
            self.wf(),
        ensures
            match r {
                Some(k) => self@.contains_key(a@) && self@[a@] == k,
                None => !self@.contains_key(a@),
            },
    {
        match self.nodes.lookup(a) {
            Some(i) => {
                proof {
                    self.lemma_at(i as int);
                }
                Some(self.core[i])
            },
            None => None,
        }
    }
}

/// The core numbers of the graph of the edges that count.
pub fn core_numbers(rows: &Vec<EdgeRow>, strict: bool) -> (r: CoreNumbers)
    ensures
        r.wf(),
        forall|a: Seq<char>| #[trigger]
            r@.contains_key(a) <==> digraph::touched(links(rows@, strict), a),
        forall|a: Seq<char>| #[trigger]
            r@.contains_key(a) ==> is_core_number(links(rows@, strict), a, r@[a]),
{
    let mut g = Digraph::new();
    let mut i: usize = 0;
    while i < rows.len()
        invariant
            i <= rows@.len(),
            g.wf(links(rows@.take(i as int), strict)),
        decreases rows@.len() - i,
    {
        let r = &rows[i];
        let ghost arcs = links(rows@.take(i as int), strict);
        proof {
            assert(rows@.take(i + 1).drop_last() =~= rows@.take(i as int));
            assert(rows@.take(i + 1).last() == *r);
        }
        if is_counted(strict, r) {
            let ghost one = arcs.push((r.from_symbol@, r.to_symbol@));
            g.add_arc(r.from_symbol.as_str(), r.to_symbol.as_str(), Ghost(arcs));
            g.add_arc(r.to_symbol.as_str(), r.from_symbol.as_str(), Ghost(one));
        }
        i += 1;
    }
    assert(rows@.take(rows@.len() as int) =~= rows@);
    let ghost arcs = links(rows@, strict);
    let adj = digraph::without_repeats(&g.adj);
    let ghost nodes = g.nodes@;
    proof {
        assert(digraph::depicts(nodes, adj@, arcs));
        assert forall|u: int, v: int| #[trigger] cycles::edge(adj@, u, v) implies cycles::edge(
            adj@,
            v,
            u,
        ) by {
            let j = choose|j: int| 0 <= j < adj@[u]@.len() && #[trigger] adj@[u]@[j] == v;
            assert(adj@[u]@[j] < adj@.len());
            lemma_links_symmetric(rows@, strict, nodes[u], nodes[v]);
        }
        assert forall|u: int| !#[trigger] cycles::edge(adj@, u, u) by {
            if cycles::edge(adj@, u, u) {
                lemma_links_symmetric(rows@, strict, nodes[u], nodes[u]);
            }
        }
    }
    let core = peel_kcore(&adj);
    let r = CoreNumbers { nodes: g.nodes, core };
    proof {
        assert(digraph::all_distinct(nodes)) by {
            assert forall|x: int, y: int| 0 <= x < y < nodes.len() implies #[trigger] nodes[x]
                != #[trigger] nodes[y] by {
                if nodes[x] == nodes[y] {
                    g.nodes.lemma_distinct(x, y);
                }
            }
        }
        assert forall|a: Seq<char>| #[trigger] r@.contains_key(a) <==> digraph::touched(
            arcs,
            a,
        ) by {
            if nodes.contains(a) {
                let u = choose|u: int| 0 <= u < nodes.len() && nodes[u] == a;
                assert(digraph::touched(arcs, nodes[u]));
            }
            if digraph::touched(arcs, a) {
                let k = choose|k: int|
                    0 <= k < arcs.len() && ((#[trigger] arcs[k]).0 == a || arcs[k].1 == a);
                assert(nodes.contains(arcs[k].0) && nodes.contains(arcs[k].1));
            }
        }
        assert forall|a: Seq<char>| #[trigger] r@.contains_key(a) implies is_core_number(
            arcs,
            a,
            r@[a],
        ) by {
            let u = choose|u: int| 0 <= u < nodes.len() && nodes[u] == a;
            r.lemma_at(u);
            lemma_core_of_name(nodes, adj@, arcs, u, core@[u] as nat);
            lemma_core_of_name(nodes, adj@, arcs, u, (core@[u] + 1) as nat);
        }
    }
    r
}

/// The two measures of the call graph.
pub struct Coreness {
    /// Over the edges that confirm something.
    pub confirmed: CoreNumbers,
    /// Over all edges.
    pub possible: CoreNumbers,
}

/// Both measures; a symbol without a link has neither, which stands for 0.
pub fn compute_coreness(rows: &Vec<EdgeRow>) -> (r: Coreness)
    ensures
        r.confirmed.wf(),
        r.possible.wf(),
        forall|a: Seq<char>| #[trigger]
            r.confirmed@.contains_key(a) <==> digraph::touched(links(rows@, true), a),
        forall|a: Seq<char>| #[trigger]
            r.confirmed@.contains_key(a) ==> is_core_number(
                links(rows@, true),
                a,
                r.confirmed@[a],
            ),
        forall|a: Seq<char>| #[trigger]
            r.possible@.contains_key(a) <==> digraph::touched(links(rows@, false), a),
        forall|a: Seq<char>| #[trigger]
            r.possible@.contains_key(a) ==> is_core_number(
                links(rows@, false),
                a,
                r.possible@[a],
            ),
{
    Coreness { confirmed: core_numbers(rows, true), possible: core_numbers(rows, false) }
}

proof fn lemma_links_grow(rows: Seq<EdgeRow>, arc: Arc)
    requires
        links(rows, true).contains(arc),
    ensures
        links(rows, false).contains(arc),
    decreases rows.len(),
{
    let init = links(rows.drop_last(), true);
    let wide = links(rows.drop_last(), false);
    let all = links(rows, true);
    let out = links(rows, false);
    let i = choose|i: int| 0 <= i < all.len() && all[i] == arc;
    if i < init.len() {
        assert(init[i] == arc);
        lemma_links_grow(rows.drop_last(), arc);
        let j = choose|j: int| 0 <= j < wide.len() && wide[j] == arc;
        assert(out[j] == arc);
    } else if i == init.len() {
        assert(out[wide.len() as int] == arc);
    } else {
        assert(out[wide.len() as int + 1] == arc);
    }
}

/// A core number is unique: belonging to a group is lost with growing demands
/// and never regained.
pub proof fn lemma_group_weaken(arcs: Seq<Arc>, a: Seq<char>, k: nat, m: nat)
    requires
        in_group(arcs, a, k),
        m <= k,
    ensures
        in_group(arcs, a, m),
{
    let s = choose|s: Set<Seq<char>>| #[trigger] is_group(arcs, s, k) && s.contains(a);
    assert(is_group(arcs, s, m));
}

/// Every symbol of the strict graph is in the wide one, and its measure there
/// is at least as large.
pub proof fn lemma_possible_not_below_confirmed(
    rows: Seq<EdgeRow>,
    a: Seq<char>,
    confirmed: nat,
    possible: nat,
)
    requires
        is_core_number(links(rows, true), a, confirmed),
        is_core_number(links(rows, false), a, possible),
    ensures
        confirmed <= possible,
        digraph::touched(links(rows, true), a) ==> digraph::touched(links(rows, false), a),
{
    let narrow = links(rows, true);
    let wide = links(rows, false);
    if confirmed > possible {
        lemma_group_weaken(narrow, a, confirmed, possible + 1);
        let s = choose|s: Set<Seq<char>>| #[trigger]
            is_group(narrow, s, possible + 1) && s.contains(a);
        assert forall|b: Seq<char>| #[trigger] s.contains(b) implies s.filter(
            beside(wide, b),
        ).len() >= possible + 1 by {
            let x = s.filter(beside(narrow, b));
            let y = s.filter(beside(wide, b));
            assert forall|c: Seq<char>| #[trigger] x.contains(c) implies y.contains(c) by {
                lemma_links_grow(rows, (b, c));
            }
            vstd::set_lib::lemma_set_subset_finite(s, y);
            vstd::set_lib::lemma_len_subset(x, y);
        }
        assert(is_group(wide, s, possible + 1));
    }
    if digraph::touched(narrow, a) {
        let i = choose|i: int|
            0 <= i < narrow.len() && ((#[trigger] narrow[i]).0 == a || narrow[i].1 == a);
        assert(narrow.contains(narrow[i]));
        lemma_links_grow(rows, narrow[i]);
        let j = choose|j: int| 0 <= j < wide.len() && wide[j] == narrow[i];
        assert(wide[j].0 == a || wide[j].1 == a);
    }
}

} // verus!
