//! Which nodes of a directed graph lie on a cycle.
//!
//! The search runs in two sweeps of linear cost. The first walks the graph
//! depth first and notes the order in which nodes are finished. The second
//! takes the nodes in the opposite order and collects, against the direction
//! of the edges, everything not yet taken: each collection is one set of
//! nodes that reach each other.

use vstd::prelude::*;

verus! {

// ---------------------------------------------------------------------------
// Walks
// ---------------------------------------------------------------------------

/// Each entry of `p` is related to the next.
pub open spec fn is_walk<T>(rel: spec_fn(T, T) -> bool, p: Seq<T>) -> bool {
    p.len() > 0 && forall|i: int| 0 <= i < p.len() - 1 ==> rel(#[trigger] p[i], p[i + 1])
}

/// A walk leads from `a` to `b`.
pub open spec fn leads<T>(rel: spec_fn(T, T) -> bool, p: Seq<T>, a: T, b: T) -> bool {
    is_walk(rel, p) && p[0] == a && p.last() == b
}

/// `b` can be reached from `a`, in no step where they are the same.
pub open spec fn reach<T>(rel: spec_fn(T, T) -> bool, a: T, b: T) -> bool {
    exists|p: Seq<T>| leads(rel, p, a, b)
}

/// `a` can be reached from itself in at least one step.
pub open spec fn on_cycle<T>(rel: spec_fn(T, T) -> bool, a: T) -> bool {
    exists|p: Seq<T>| p.len() >= 2 && leads(rel, p, a, a)
}

pub proof fn lemma_reach_self<T>(rel: spec_fn(T, T) -> bool, a: T)
    ensures
        reach(rel, a, a),
{
    assert(leads(rel, seq![a], a, a));
}

pub proof fn lemma_reach_step<T>(rel: spec_fn(T, T) -> bool, a: T, b: T)
    requires
        rel(a, b),
    ensures
        reach(rel, a, b),
{
    let p = seq![a, b];
    assert(leads(rel, p, a, b));
}

pub proof fn lemma_walk_concat<T>(rel: spec_fn(T, T) -> bool, p: Seq<T>, q: Seq<T>, a: T, b: T, c: T)
    requires
        leads(rel, p, a, b),
        leads(rel, q, b, c),
    ensures
        leads(rel, p + q.drop_first(), a, c),
{
    let r = p + q.drop_first();
    assert forall|i: int| 0 <= i < r.len() - 1 implies rel(#[trigger] r[i], r[i + 1]) by {
        if i < p.len() - 1 {
            assert(rel(p[i], p[i + 1]));
        } else {
            let j = i - (p.len() - 1);
            assert(rel(q[j], q[j + 1]));
            assert(r[i + 1] == q[j + 1]);
            if j == 0 {
                assert(r[i] == p.last());
            } else {
                assert(r[i] == q[j]);
            }
        }
    }
    if q.len() == 1 {
        assert(r =~= p);
    } else {
        assert(r.last() == q.last());
    }
}

pub proof fn lemma_reach_trans<T>(rel: spec_fn(T, T) -> bool, a: T, b: T, c: T)
    requires
        reach(rel, a, b),
        reach(rel, b, c),
    ensures
        reach(rel, a, c),
{
    let p = choose|p: Seq<T>| leads(rel, p, a, b);
    let q = choose|q: Seq<T>| leads(rel, q, b, c);
    lemma_walk_concat(rel, p, q, a, b, c);
}

/// Both ends of a walk reach and are reached from every entry of it.
pub proof fn lemma_walk_inside<T>(rel: spec_fn(T, T) -> bool, p: Seq<T>, i: int)
    requires
        is_walk(rel, p),
        0 <= i < p.len(),
    ensures
        reach(rel, p[0], p[i]),
        reach(rel, p[i], p.last()),
{
    let a = p.take(i + 1);
    let b = p.skip(i);
    assert(leads(rel, a, p[0], p[i])) by {
        assert forall|k: int| 0 <= k < a.len() - 1 implies rel(#[trigger] a[k], a[k + 1]) by {
            assert(rel(p[k], p[k + 1]));
        }
    }
    assert(leads(rel, b, p[i], p.last())) by {
        assert forall|k: int| 0 <= k < b.len() - 1 implies rel(#[trigger] b[k], b[k + 1]) by {
            assert(rel(p[k + i], p[k + i + 1]));
        }
    }
}

/// A node is on a cycle exactly when it is related to itself or shares mutual
/// reach with another node.
pub proof fn lemma_cycle_is_mutual<T>(rel: spec_fn(T, T) -> bool, a: T)
    ensures
        on_cycle(rel, a) <==> rel(a, a) || exists|b: T|
            b != a && #[trigger] reach(rel, a, b) && reach(rel, b, a),
{
    if on_cycle(rel, a) {
        let p = choose|p: Seq<T>| p.len() >= 2 && leads(rel, p, a, a);
        assert(rel(p[0], p[1]));
        if p[1] != a {
            lemma_walk_inside(rel, p, 1);
            assert(reach(rel, a, p[1]) && reach(rel, p[1], a));
        }
    }
    if rel(a, a) {
        let p = seq![a, a];
        assert(leads(rel, p, a, a));
    }
    if exists|b: T| b != a && #[trigger] reach(rel, a, b) && reach(rel, b, a) {
        let b = choose|b: T| b != a && #[trigger] reach(rel, a, b) && reach(rel, b, a);
        let p = choose|p: Seq<T>| leads(rel, p, a, b);
        let q = choose|q: Seq<T>| leads(rel, q, b, a);
        lemma_walk_concat(rel, p, q, a, b, a);
        let r = p + q.drop_first();
        assert(p.len() >= 2) by {
            if p.len() == 1 {
                assert(p[0] == p.last());
            }
        }
        assert(r.len() >= 2);
    }
}

// ---------------------------------------------------------------------------
// Graphs over numbers
// ---------------------------------------------------------------------------

/// Every listed neighbour is a node.
pub open spec fn graph_ok(adj: Seq<Vec<usize>>) -> bool {
    forall|u: int, j: int|
        0 <= u < adj.len() && 0 <= j < adj[u]@.len() ==> (#[trigger] adj[u]@[j]) < adj.len()
}

/// There is an edge from `u` to `v`.
pub open spec fn edge(adj: Seq<Vec<usize>>, u: int, v: int) -> bool {
    0 <= u < adj.len() && exists|j: int| 0 <= j < adj[u]@.len() && #[trigger] adj[u]@[j] == v
}

pub open spec fn edges_in(adj: Seq<Vec<usize>>) -> spec_fn(int, int) -> bool {
    |u: int, v: int| edge(adj, u, v)
}

/// `back` lists the edges of `adj` the other way round.
pub open spec fn reversed(adj: Seq<Vec<usize>>, back: Seq<Vec<usize>>) -> bool {
    adj.len() == back.len() && forall|u: int, v: int| #[trigger]
        edge(adj, u, v) <==> edge(back, v, u)
}

// ---------------------------------------------------------------------------
// First sweep: the finishing order
// ---------------------------------------------------------------------------

/// When nodes are found and finished, on one clock.
pub ghost struct Times {
    pub found: Map<int, int>,
    pub done: Map<int, int>,
}

/// What the two clocks say of a depth-first walk whose finished nodes are the
/// domain of `done`.
pub open spec fn timed(adj: Seq<Vec<usize>>, t: Times, now: int) -> bool {
    &&& forall|u: int| #[trigger]
        t.found.contains_key(u) ==> 0 <= u < adj.len() && 0 <= t.found[u] < now
    &&& forall|u: int| #[trigger]
        t.done.contains_key(u) ==> t.found.contains_key(u) && t.found[u] < t.done[u] < now
    // No two events fall together.
    &&& forall|u: int, v: int|
        t.found.contains_key(u) && t.done.contains_key(v) ==> #[trigger] t.found[u]
            != #[trigger] t.done[v]
    &&& forall|u: int, v: int|
        t.done.contains_key(u) && t.done.contains_key(v) && u != v ==> #[trigger] t.done[u]
            != #[trigger] t.done[v]
    // When a node is finished, all its successors are found.
    &&& forall|u: int, v: int|
        t.done.contains_key(u) && #[trigger] edge(adj, u, v) ==> t.found.contains_key(v)
            && t.found[v] < t.done[u]
    // A node finished while another is open is reached from that other one.
    &&& forall|r: int, x: int|
        #![trigger t.found[r], t.done[x]]
        t.found.contains_key(r) && t.done.contains_key(x) && t.found[r] < t.done[x] && (
        t.done.contains_key(r) ==> t.done[x] <= t.done[r]) ==> reach(edges_in(adj), r, x)
    // What is found while a node is open is finished before it.
    &&& forall|a: int, b: int|
        #![trigger t.done[a], t.found[b]]
        t.done.contains_key(a) && t.found.contains_key(b) && t.found[a] < t.found[b] < t.done[a]
            ==> t.done.contains_key(b) && t.done[b] < t.done[a]
}

/// The open nodes: a walk, each found after the one below.
spec fn open_nodes(
    adj: Seq<Vec<usize>>,
    t: Times,
    stack: Seq<(usize, usize)>,
) -> bool {
    &&& forall|i: int|
        0 <= i < stack.len() ==> {
            let u = (#[trigger] stack[i]).0 as int;
            &&& u < adj.len()
            &&& stack[i].1 <= adj[u]@.len()
            &&& t.found.contains_key(u)
            &&& !t.done.contains_key(u)
            &&& forall|j: int| 0 <= j < stack[i].1 ==> t.found.contains_key(
                (#[trigger] adj[u]@[j]) as int,
            )
        }
    &&& forall|i: int, j: int|
        0 <= i < j < stack.len() ==> t.found[(#[trigger] stack[i]).0 as int] < t.found[(
        #[trigger] stack[j]).0 as int] && reach(
            edges_in(adj),
            stack[i].0 as int,
            stack[j].0 as int,
        )
    &&& forall|u: int|
        #[trigger] t.found.contains_key(u) && !t.done.contains_key(u) ==> exists|i: int|
            0 <= i < stack.len() && (#[trigger] stack[i]).0 == u
}

/// `order` lists the finished nodes as they were finished.
spec fn lists_done(t: Times, order: Seq<usize>) -> bool {
    &&& forall|i: int|
        0 <= i < order.len() ==> t.done.contains_key((#[trigger] order[i]) as int)
    &&& forall|i: int, j: int|
        0 <= i < j < order.len() ==> t.done[(#[trigger] order[i]) as int] < t.done[(
        #[trigger] order[j]) as int]
    &&& forall|u: int| #[trigger]
        t.done.contains_key(u) ==> exists|i: int| 0 <= i < order.len() && order[i] == u
}

/// Opening the node `v`, a successor of the top of the stack or a fresh start.
proof fn lemma_open(
    adj: Seq<Vec<usize>>,
    t: Times,
    now: int,
    stack: Seq<(usize, usize)>,
    v: usize,
)
    requires
        graph_ok(adj),
        timed(adj, t, now),
        open_nodes(adj, t, stack),
        0 <= now,
        v < adj.len(),
        !t.found.contains_key(v as int),
        stack.len() > 0 ==> edge(adj, stack.last().0 as int, v as int),
    ensures
        ({
            let s = Times { found: t.found.insert(v as int, now), done: t.done };
            &&& timed(adj, s, now + 1)
            &&& open_nodes(adj, s, stack.push((v, 0)))
        }),
{
    let s = Times { found: t.found.insert(v as int, now), done: t.done };
    let next = stack.push((v, 0usize));
    let rel = edges_in(adj);
    assert(!t.done.contains_key(v as int));
    assert forall|i: int, j: int| 0 <= i < j < next.len() implies s.found[(
    #[trigger] next[i]).0 as int] < s.found[(#[trigger] next[j]).0 as int] && reach(
        rel,
        next[i].0 as int,
        next[j].0 as int,
    ) by {
        assert(next[i] == stack[i]);
        assert(stack[i].0 != v);
        if j < stack.len() {
            assert(next[j] == stack[j]);
            assert(stack[j].0 != v);
        } else {
            let top = stack.last().0 as int;
            lemma_reach_step(rel, top, v as int);
            if i < stack.len() - 1 {
                assert(reach(rel, stack[i].0 as int, stack[stack.len() - 1].0 as int));
                lemma_reach_trans(rel, stack[i].0 as int, top, v as int);
            }
        }
    }
    assert forall|u: int| #[trigger] s.found.contains_key(u) && !s.done.contains_key(
        u,
    ) implies exists|i: int| 0 <= i < next.len() && (#[trigger] next[i]).0 == u by {
        if u == v {
            assert(next[stack.len() as int].0 == u);
        } else {
            assert(t.found.contains_key(u));
            let i = choose|i: int| 0 <= i < stack.len() && (#[trigger] stack[i]).0 == u;
            assert(next[i].0 == u);
        }
    }
    assert forall|i: int| 0 <= i < next.len() implies ({
        let u = (#[trigger] next[i]).0 as int;
        &&& u < adj.len()
        &&& next[i].1 <= adj[u]@.len()
        &&& s.found.contains_key(u)
        &&& !s.done.contains_key(u)
        &&& forall|j: int| 0 <= j < next[i].1 ==> s.found.contains_key(
            (#[trigger] adj[u]@[j]) as int,
        )
    }) by {
        if i < stack.len() {
            assert(next[i] == stack[i]);
        }
    }
}

/// Finishing the top of the stack.
proof fn lemma_close(adj: Seq<Vec<usize>>, t: Times, now: int, stack: Seq<(usize, usize)>)
    requires
        graph_ok(adj),
        timed(adj, t, now),
        open_nodes(adj, t, stack),
        stack.len() > 0,
        stack.last().1 == adj[stack.last().0 as int]@.len(),
    ensures
        ({
            let u = stack.last().0 as int;
            let s = Times { found: t.found, done: t.done.insert(u, now) };
            &&& timed(adj, s, now + 1)
            &&& open_nodes(adj, s, stack.drop_last())
        }),
{
    let n = stack.len() - 1;
    let u = stack[n].0 as int;
    let s = Times { found: t.found, done: t.done.insert(u, now) };
    let rest = stack.drop_last();
    let rel = edges_in(adj);
    assert(t.found.contains_key(u));
    // The top was found last among the open nodes.
    assert forall|w: int| #[trigger] t.found.contains_key(w) && !t.done.contains_key(
        w,
    ) implies t.found[w] <= t.found[u] && reach(rel, w, u) by {
        let i = choose|i: int| 0 <= i < stack.len() && (#[trigger] stack[i]).0 == w;
        if i < n {
            assert(t.found[stack[i].0 as int] < t.found[stack[n].0 as int]);
        } else {
            lemma_reach_self(rel, u);
        }
    }
    assert forall|a: int, v: int| s.done.contains_key(a) && #[trigger] edge(
        adj,
        a,
        v,
    ) implies s.found.contains_key(v) && s.found[v] < s.done[a] by {
        if a == u {
            let j = choose|j: int| 0 <= j < adj[u]@.len() && #[trigger] adj[u]@[j] == v;
            assert(t.found.contains_key(adj[u]@[j] as int));
        }
    }
    assert forall|r: int, x: int|
        #![trigger s.found[r], s.done[x]]
        s.found.contains_key(r) && s.done.contains_key(x) && s.found[r] < s.done[x] && (
        s.done.contains_key(r) ==> s.done[x] <= s.done[r]) implies reach(rel, r, x) by {
        if x == u {
            if r == u {
                lemma_reach_self(rel, u);
            } else if t.done.contains_key(r) {
                assert(t.done[r] < now);
            }
        } else if r == u {
            assert(t.done.contains_key(x));
        }
    }
    assert forall|a: int, b: int|
        #![trigger s.done[a], s.found[b]]
        s.done.contains_key(a) && s.found.contains_key(b) && s.found[a] < s.found[b]
            < s.done[a] implies s.done.contains_key(b) && s.done[b] < s.done[a] by {
        if a == u {
            if !t.done.contains_key(b) {
                assert(t.found[b] <= t.found[u]);
            }
        } else {
            assert(t.done.contains_key(a));
            assert(t.done[a] < now);
        }
    }
    assert forall|i: int| 0 <= i < rest.len() implies ({
        let w = (#[trigger] rest[i]).0 as int;
        &&& w < adj.len()
        &&& rest[i].1 <= adj[w]@.len()
        &&& s.found.contains_key(w)
        &&& !s.done.contains_key(w)
        &&& forall|j: int| 0 <= j < rest[i].1 ==> s.found.contains_key(
            (#[trigger] adj[w]@[j]) as int,
        )
    }) by {
        assert(rest[i] == stack[i]);
        assert(t.found[stack[i].0 as int] < t.found[stack[n].0 as int]);
    }
    assert forall|i: int, j: int| 0 <= i < j < rest.len() implies s.found[(
    #[trigger] rest[i]).0 as int] < s.found[(#[trigger] rest[j]).0 as int] && reach(
        rel,
        rest[i].0 as int,
        rest[j].0 as int,
    ) by {
        assert(rest[i] == stack[i] && rest[j] == stack[j]);
    }
    assert forall|w: int| #[trigger] s.found.contains_key(w) && !s.done.contains_key(
        w,
    ) implies exists|i: int| 0 <= i < rest.len() && (#[trigger] rest[i]).0 == w by {
        let i = choose|i: int| 0 <= i < stack.len() && (#[trigger] stack[i]).0 == w;
        assert(i < n);
        assert(rest[i].0 == w);
    }
    assert forall|a: int, b: int|
        s.done.contains_key(a) && s.done.contains_key(b) && a != b implies #[trigger] s.done[a]
        != #[trigger] s.done[b] by {
        if t.done.contains_key(a) {
            assert(t.done[a] < now);
        }
        if t.done.contains_key(b) {
            assert(t.done[b] < now);
        }
    }
}

/// The nodes in the order in which a depth-first walk finishes them, and the
/// clock readings that go with it.
fn finishing_order(adj: &Vec<Vec<usize>>) -> (r: (Vec<usize>, Ghost<Times>, Ghost<int>))
    requires
        graph_ok(adj@),
    ensures
        timed(adj@, r.1@, r.2@),
        lists_done(r.1@, r.0@),
        forall|u: int| 0 <= u < adj@.len() ==> #[trigger] r.1@.done.contains_key(u),
{
    let n = adj.len();
    let mut seen: Vec<bool> = Vec::new();
    let mut k: usize = 0;
    while k < n
        invariant
            k <= n,
            seen@.len() == k,
            forall|u: int| 0 <= u < k ==> !(#[trigger] seen@[u]),
        decreases n - k,
    {
        seen.push(false);
        k += 1;
    }
    let mut order: Vec<usize> = Vec::new();
    let ghost mut t = Times { found: Map::empty(), done: Map::empty() };
    let ghost mut now: int = 0;
    let mut start: usize = 0;
    while start < n
        invariant
            start <= n,
            n == adj@.len(),
            graph_ok(adj@),
            0 <= now,
            timed(adj@, t, now),
            lists_done(t, order@),
            seen@.len() == n,
            forall|u: int| 0 <= u < n ==> #[trigger] seen@[u] == t.found.contains_key(u),
            forall|u: int| #[trigger] t.found.contains_key(u) ==> t.done.contains_key(u),
            forall|u: int| 0 <= u < start ==> #[trigger] t.found.contains_key(u),
        decreases n - start,
    {
        if !seen[start] {
            let mut stack: Vec<(usize, usize)> = Vec::new();
            proof {
                assert(open_nodes(adj@, t, stack@));
                lemma_open(adj@, t, now, stack@, start);
                t = Times { found: t.found.insert(start as int, now), done: t.done };
                now = now + 1;
            }
            stack.push((start, 0));
            seen.set(start, true);
            while stack.len() > 0
                invariant
                    start < n,
                    n == adj@.len(),
                    graph_ok(adj@),
                    0 <= now,
                    timed(adj@, t, now),
                    open_nodes(adj@, t, stack@),
                    lists_done(t, order@),
                    seen@.len() == n,
                    forall|u: int| 0 <= u < n ==> #[trigger] seen@[u] == t.found.contains_key(u),
                    forall|u: int| 0 <= u <= start ==> #[trigger] t.found.contains_key(u),
                decreases
                    unmarked(seen@),
                    pending(adj@, stack@),
            {
                let top = stack.len() - 1;
                let (u, c) = stack[top];
                assert(stack@[top as int].0 == u);
                if c < adj[u].len() {
                    let v = adj[u][c];
                    assert(adj@[u as int]@[c as int] < adj@.len());
                    let ghost before = stack@;
                    let ghost was = seen@;
                    stack.set(top, (u, c + 1));
                    if !seen[v] {
                        proof {
                            lemma_advance(adj@, t, now, before, (u, (c + 1) as usize), v);
                            t = Times { found: t.found.insert(v as int, now), done: t.done };
                            now = now + 1;
                        }
                        stack.push((v, 0));
                        seen.set(v, true);
                        proof {
                            lemma_unmarked_set(was, v as int);
                        }
                    } else {
                        proof {
                            lemma_skip(adj@, t, before, (u, (c + 1) as usize));
                            lemma_pending_step(adj@, before, (u, (c + 1) as usize));
                        }
                    }
                } else {
                    let ghost before = stack@;
                    let ghost old_order = order@;
                    let ghost old_t = t;
                    proof {
                        lemma_close(adj@, t, now, stack@);
                        lemma_pending_pop(adj@, stack@);
                        t = Times { found: t.found, done: t.done.insert(u as int, now) };
                        now = now + 1;
                    }
                    stack.pop();
                    order.push(u);
                    assert(stack@ =~= before.drop_last());
                    proof {
                        lemma_done_grows(old_t, old_order, u, now - 1);
                    }
                }
            }
            assert forall|w: int| #[trigger] t.found.contains_key(w) implies t.done.contains_key(
                w,
            ) by {
                if !t.done.contains_key(w) {
                    let i = choose|i: int| 0 <= i < stack@.len() && (#[trigger] stack@[i]).0 == w;
                }
            }
        }
        start += 1;
    }
    assert forall|u: int| 0 <= u < adj@.len() implies #[trigger] t.done.contains_key(u) by {
        assert(t.found.contains_key(u));
    }
    (order, Ghost(t), Ghost(now))
}

/// How many nodes are not marked.
pub open spec fn unmarked(seen: Seq<bool>) -> nat
    decreases seen.len(),
{
    if seen.len() == 0 {
        0
    } else {
        unmarked(seen.drop_last()) + if seen.last() { 0nat } else { 1 }
    }
}

pub proof fn lemma_unmarked_set(seen: Seq<bool>, v: int)
    requires
        0 <= v < seen.len(),
        !seen[v],
    ensures
        unmarked(seen.update(v, true)) + 1 == unmarked(seen),
    decreases seen.len(),
{
    let s = seen.update(v, true);
    if v == seen.len() - 1 {
        assert(s.drop_last() =~= seen.drop_last());
    } else {
        assert(s.drop_last() =~= seen.drop_last().update(v, true));
        lemma_unmarked_set(seen.drop_last(), v);
    }
}

/// How many steps the open nodes still have before them, their own closing
/// counted.
spec fn pending(adj: Seq<Vec<usize>>, stack: Seq<(usize, usize)>) -> nat
    decreases stack.len(),
{
    if stack.len() == 0 {
        0
    } else {
        let (u, c) = stack.last();
        pending(adj, stack.drop_last()) + 1 + if c <= adj[u as int]@.len() {
            (adj[u as int]@.len() - c) as nat
        } else {
            0
        }
    }
}

proof fn lemma_pending_step(adj: Seq<Vec<usize>>, stack: Seq<(usize, usize)>, up: (usize, usize))
    requires
        stack.len() > 0,
        up.0 == stack.last().0,
        up.1 == stack.last().1 + 1,
        stack.last().1 < adj[stack.last().0 as int]@.len(),
    ensures
        pending(
            adj,
            stack.update(stack.len() - 1, up),
        ) < pending(adj, stack),
{
    let next = stack.update(stack.len() - 1, up);
    assert(next.drop_last() =~= stack.drop_last());
}

proof fn lemma_pending_pop(adj: Seq<Vec<usize>>, stack: Seq<(usize, usize)>)
    requires
        stack.len() > 0,
    ensures
        pending(adj, stack.drop_last()) < pending(adj, stack),
{
}

/// Passing over a successor that is found already.
proof fn lemma_skip(adj: Seq<Vec<usize>>, t: Times, stack: Seq<(usize, usize)>, up: (usize, usize))
    requires
        graph_ok(adj),
        open_nodes(adj, t, stack),
        stack.len() > 0,
        up.0 == stack.last().0,
        up.1 == stack.last().1 + 1,
        stack.last().1 < adj[stack.last().0 as int]@.len(),
        t.found.contains_key(adj[stack.last().0 as int]@[stack.last().1 as int] as int),
    ensures
        open_nodes(
            adj,
            t,
            stack.update(stack.len() - 1, up),
        ),
{
    let n = stack.len() - 1;
    let next = stack.update(n, up);
    assert forall|i: int| 0 <= i < next.len() implies ({
        let u = (#[trigger] next[i]).0 as int;
        &&& u < adj.len()
        &&& next[i].1 <= adj[u]@.len()
        &&& t.found.contains_key(u)
        &&& !t.done.contains_key(u)
        &&& forall|j: int| 0 <= j < next[i].1 ==> t.found.contains_key(
            (#[trigger] adj[u]@[j]) as int,
        )
    }) by {
        assert(stack[i].0 == next[i].0);
    }
    assert forall|i: int, j: int| 0 <= i < j < next.len() implies t.found[(
    #[trigger] next[i]).0 as int] < t.found[(#[trigger] next[j]).0 as int] && reach(
        edges_in(adj),
        next[i].0 as int,
        next[j].0 as int,
    ) by {
        assert(stack[i].0 == next[i].0 && stack[j].0 == next[j].0);
    }
    assert forall|u: int| #[trigger] t.found.contains_key(u) && !t.done.contains_key(
        u,
    ) implies exists|i: int| 0 <= i < next.len() && (#[trigger] next[i]).0 == u by {
        let i = choose|i: int| 0 <= i < stack.len() && (#[trigger] stack[i]).0 == u;
        assert(next[i].0 == u);
    }
}

/// Passing on to a successor that is not found yet.
proof fn lemma_advance(
    adj: Seq<Vec<usize>>,
    t: Times,
    now: int,
    stack: Seq<(usize, usize)>,
    up: (usize, usize),
    v: usize,
)
    requires
        graph_ok(adj),
        timed(adj, t, now),
        open_nodes(adj, t, stack),
        0 <= now,
        stack.len() > 0,
        up.0 == stack.last().0,
        up.1 == stack.last().1 + 1,
        stack.last().1 < adj[stack.last().0 as int]@.len(),
        adj[stack.last().0 as int]@[stack.last().1 as int] == v,
        v < adj.len(),
        !t.found.contains_key(v as int),
    ensures
        ({
            let s = Times { found: t.found.insert(v as int, now), done: t.done };
            let next = stack.update(
                stack.len() - 1,
                up,
            );
            &&& timed(adj, s, now + 1)
            &&& open_nodes(adj, s, next.push((v, 0)))
        }),
{
    let n = stack.len() - 1;
    let u = stack[n].0 as int;
    assert(edge(adj, u, v as int)) by {
        assert(adj[u]@[stack[n].1 as int] == v);
    }
    lemma_open(adj, t, now, stack, v);
    let s = Times { found: t.found.insert(v as int, now), done: t.done };
    let mid = stack.push((v, 0usize));
    let next = stack.update(n, up).push((v, 0usize));
    assert forall|i: int| 0 <= i < next.len() implies ({
        let w = (#[trigger] next[i]).0 as int;
        &&& w < adj.len()
        &&& next[i].1 <= adj[w]@.len()
        &&& s.found.contains_key(w)
        &&& !s.done.contains_key(w)
        &&& forall|j: int| 0 <= j < next[i].1 ==> s.found.contains_key(
            (#[trigger] adj[w]@[j]) as int,
        )
    }) by {
        assert(mid[i].0 == next[i].0);
    }
    assert forall|i: int, j: int| 0 <= i < j < next.len() implies s.found[(
    #[trigger] next[i]).0 as int] < s.found[(#[trigger] next[j]).0 as int] && reach(
        edges_in(adj),
        next[i].0 as int,
        next[j].0 as int,
    ) by {
        assert(mid[i].0 == next[i].0 && mid[j].0 == next[j].0);
    }
    assert forall|w: int| #[trigger] s.found.contains_key(w) && !s.done.contains_key(
        w,
    ) implies exists|i: int| 0 <= i < next.len() && (#[trigger] next[i]).0 == w by {
        let i = choose|i: int| 0 <= i < mid.len() && (#[trigger] mid[i]).0 == w;
        assert(next[i].0 == w);
    }
}

proof fn lemma_done_grows(t: Times, order: Seq<usize>, u: usize, now: int)
    requires
        lists_done(t, order),
        forall|x: int| #[trigger] t.done.contains_key(x) ==> t.done[x] < now,
        !t.done.contains_key(u as int),
    ensures
        lists_done(Times { found: t.found, done: t.done.insert(u as int, now) }, order.push(u)),
{
    let s = Times { found: t.found, done: t.done.insert(u as int, now) };
    let next = order.push(u);
    assert forall|i: int| 0 <= i < next.len() implies s.done.contains_key(
        (#[trigger] next[i]) as int,
    ) by {
        if i < order.len() {
            assert(next[i] == order[i]);
        }
    }
    assert forall|i: int, j: int| 0 <= i < j < next.len() implies s.done[(
    #[trigger] next[i]) as int] < s.done[(#[trigger] next[j]) as int] by {
        assert(next[i] == order[i]);
        assert(t.done.contains_key(order[i] as int));
        if j < order.len() {
            assert(next[j] == order[j]);
            assert(t.done.contains_key(order[j] as int));
        }
    }
    assert forall|x: int| #[trigger] s.done.contains_key(x) implies exists|i: int|
        0 <= i < next.len() && next[i] == x by {
        if x == u {
            assert(next[order.len() as int] == x);
        } else {
            assert(t.done.contains_key(x));
            let i = choose|i: int| 0 <= i < order.len() && order[i] == x;
            assert(next[i] == x);
        }
    }
}

// ---------------------------------------------------------------------------
// Second sweep: collecting against the edges
// ---------------------------------------------------------------------------

/// `u` and `v` reach each other.
pub open spec fn mutual(adj: Seq<Vec<usize>>, u: int, v: int) -> bool {
    reach(edges_in(adj), u, v) && reach(edges_in(adj), v, u)
}

/// Where a walk leads to `r` and none of its nodes was finished after `r`,
/// its start is reached from `r`.
proof fn lemma_back_reach(adj: Seq<Vec<usize>>, t: Times, now: int, p: Seq<int>, r: int)
    requires
        timed(adj, t, now),
        is_walk(edges_in(adj), p),
        p.last() == r,
        forall|i: int|
            0 <= i < p.len() ==> t.done.contains_key(#[trigger] p[i]) && t.done[p[i]] <= t.done[r],
    ensures
        t.found[r] < t.done[p[0]],
        reach(edges_in(adj), r, p[0]),
    decreases p.len(),
{
    assert(t.done.contains_key(p[p.len() - 1]));
    assert(t.done.contains_key(p[0]));
    if p.len() > 1 {
        let q = p.drop_first();
        assert forall|i: int| 0 <= i < q.len() - 1 implies edges_in(adj)(
            #[trigger] q[i],
            q[i + 1],
        ) by {
            assert(edges_in(adj)(p[i + 1], p[i + 2]));
        }
        assert forall|i: int| 0 <= i < q.len() implies t.done.contains_key(#[trigger] q[i])
            && t.done[q[i]] <= t.done[r] by {
            assert(q[i] == p[i + 1]);
        }
        lemma_back_reach(adj, t, now, q, r);
        let u = p[0];
        let v = p[1];
        assert(edges_in(adj)(p[0], p[1]));
        assert(edge(adj, u, v));
        assert(t.found[v] < t.done[u]);
        assert(t.found[r] < t.done[v]);
        assert(t.found[r] != t.done[u]);
        if t.done[u] < t.found[r] {
            assert(t.done.contains_key(v));
            assert(t.done[r] < t.done[v]);
            assert(t.done[p[1]] <= t.done[r]);
        }
    }
}

/// A walk from `x` to `r` that keeps to nodes that are not in `taken`.
spec fn free_walk(adj: Seq<Vec<usize>>, taken: Seq<bool>, p: Seq<int>, x: int, r: int) -> bool {
    &&& leads(edges_in(adj), p, x, r)
    &&& forall|i: int| 0 <= i < p.len() ==> 0 <= #[trigger] p[i] < taken.len() && !taken[p[i]]
}

spec fn freely_reaches(adj: Seq<Vec<usize>>, taken: Seq<bool>, x: int, r: int) -> bool {
    exists|p: Seq<int>| free_walk(adj, taken, p, x, r)
}

spec fn holds(comp: Seq<usize>, x: int) -> bool {
    exists|i: int| 0 <= i < comp.len() && #[trigger] comp[i] == x
}

/// What `comp` is, part way through collecting: nodes that were free, each
/// once, each leading to `r`, marked as taken; and with every node before
/// `head` all its free predecessors.
spec fn collected(
    adj: Seq<Vec<usize>>,
    back: Seq<Vec<usize>>,
    free: Seq<bool>,
    taken: Seq<bool>,
    comp: Seq<usize>,
    r: int,
    head: int,
) -> bool {
    &&& taken.len() == free.len()
    &&& holds(comp, r)
    &&& forall|i: int|
        0 <= i < comp.len() ==> (#[trigger] comp[i]) < free.len() && !free[comp[i] as int]
            && freely_reaches(adj, free, comp[i] as int, r)
    &&& forall|i: int, j: int| 0 <= i < j < comp.len() ==> #[trigger] comp[i] != #[trigger] comp[j]
    &&& forall|v: int|
        0 <= v < taken.len() ==> (#[trigger] taken[v] <==> free[v] || holds(comp, v))
    &&& forall|i: int, y: int|
        0 <= i < head && #[trigger] edge(back, comp[i] as int, y) ==> 0 <= y < taken.len()
            && taken[y]
}

/// Collect the free nodes that lead to `r` through free nodes.
fn collect(
    adj: Ghost<Seq<Vec<usize>>>,
    back: &Vec<Vec<usize>>,
    taken: &mut Vec<bool>,
    r: usize,
) -> (comp: Vec<usize>)
    requires
        graph_ok(back@),
        reversed(adj@, back@),
        old(taken)@.len() == back@.len(),
        r < back@.len(),
        !old(taken)@[r as int],
    ensures
        collected(
            adj@,
            back@,
            old(taken)@,
            final(taken)@,
            comp@,
            r as int,
            comp@.len() as int,
        ),
{
    let ghost free = taken@;
    let ghost rel = edges_in(adj@);
    let mut comp: Vec<usize> = Vec::new();
    comp.push(r);
    taken.set(r, true);
    let mut head: usize = 0;
    proof {
        assert(free_walk(adj@, free, seq![r as int], r as int, r as int));
        assert(comp@[0] == r);
        lemma_unmarked_set(free, r as int);
    }
    let ghost total = unmarked(taken@) + comp@.len();
    while head < comp.len()
        invariant
            head <= comp@.len(),
            graph_ok(back@),
            reversed(adj@, back@),
            free.len() == back@.len(),
            rel == edges_in(adj@),
            collected(adj@, back@, free, taken@, comp@, r as int, head as int),
            total == unmarked(taken@) + comp@.len(),
        decreases total - head,
    {
        let x = comp[head];
        let ghost at_start = comp@;
        let mut j: usize = 0;
        while j < back[x as usize].len()
            invariant
                j <= back@[x as int]@.len(),
                x < back@.len(),
                head < at_start.len(),
                at_start.len() <= comp@.len(),
                at_start == comp@.take(at_start.len() as int),
                at_start[head as int] == x,
                graph_ok(back@),
                reversed(adj@, back@),
                free.len() == back@.len(),
                rel == edges_in(adj@),
                collected(adj@, back@, free, taken@, comp@, r as int, head as int),
                total == unmarked(taken@) + comp@.len(),
                forall|k: int|
                    0 <= k < j ==> taken@[(#[trigger] back@[x as int]@[k]) as int],
            decreases back@[x as int]@.len() - j,
        {
            let y = back[x as usize][j];
            assert(back@[x as int]@[j as int] < back@.len());
            if !taken[y] {
                let ghost before = comp@;
                let ghost was = taken@;
                taken.set(y, true);
                comp.push(y);
                proof {
                    lemma_unmarked_set(was, y as int);
                    assert(edge(back@, x as int, y as int));
                    assert(edge(adj@, y as int, x as int));
                    assert(before[head as int] == x);
                    let p = choose|p: Seq<int>| free_walk(adj@, free, p, x as int, r as int);
                    let q = seq![y as int] + p;
                    assert(!free[y as int]) by {
                        assert(was[y as int] <==> free[y as int] || holds(before, y as int));
                    }
                    assert(free_walk(adj@, free, q, y as int, r as int)) by {
                        assert forall|i: int| 0 <= i < q.len() - 1 implies rel(
                            #[trigger] q[i],
                            q[i + 1],
                        ) by {
                            if i > 0 {
                                assert(rel(p[i - 1], p[i]));
                            }
                        }
                        assert forall|i: int| 0 <= i < q.len() implies 0 <= #[trigger] q[i]
                            < free.len() && !free[q[i]] by {
                            if i > 0 {
                                assert(q[i] == p[i - 1]);
                            }
                        }
                    }
                    lemma_collect_more(adj@, back@, free, was, before, r as int, head as int, y);
                    assert(taken@ =~= was.update(y as int, true));
                    assert(comp@ =~= before.push(y));
                }
            }
            j += 1;
        }
        proof {
            assert(comp@[head as int] == x);
            assert forall|i: int, y: int|
                0 <= i < head + 1 && #[trigger] edge(
                    back@,
                    comp@[i] as int,
                    y,
                ) implies 0 <= y < taken@.len() && taken@[y] by {
                if i == head {
                    let k = choose|k: int|
                        0 <= k < back@[x as int]@.len() && #[trigger] back@[x as int]@[k] == y;
                    assert(taken@[back@[x as int]@[k] as int]);
                }
            }
        }
        head += 1;
    }
    comp
}

proof fn lemma_collect_more(
    adj: Seq<Vec<usize>>,
    back: Seq<Vec<usize>>,
    free: Seq<bool>,
    taken: Seq<bool>,
    comp: Seq<usize>,
    r: int,
    head: int,
    y: usize,
)
    requires
        collected(adj, back, free, taken, comp, r, head),
        head <= comp.len(),
        y < taken.len(),
        !taken[y as int],
        freely_reaches(adj, free, y as int, r),
    ensures
        collected(adj, back, free, taken.update(y as int, true), comp.push(y), r, head),
{
    let t2 = taken.update(y as int, true);
    let c2 = comp.push(y);
    assert(holds(c2, r)) by {
        let i = choose|i: int| 0 <= i < comp.len() && #[trigger] comp[i] == r;
        assert(c2[i] == r);
    }
    assert forall|i: int| 0 <= i < c2.len() implies (#[trigger] c2[i]) < free.len()
        && !free[c2[i] as int] && freely_reaches(adj, free, c2[i] as int, r) by {
        if i < comp.len() {
            assert(c2[i] == comp[i]);
        } else {
            assert(taken[y as int] <==> free[y as int] || holds(comp, y as int));
        }
    }
    assert forall|i: int, j: int| 0 <= i < j < c2.len() implies #[trigger] c2[i]
        != #[trigger] c2[j] by {
        assert(c2[i] == comp[i]);
        if j < comp.len() {
            assert(c2[j] == comp[j]);
        } else if comp[i] == y {
            assert(holds(comp, y as int));
        }
    }
    assert forall|v: int| 0 <= v < t2.len() implies (#[trigger] t2[v] <==> free[v] || holds(
        c2,
        v,
    )) by {
        assert(taken[v] <==> free[v] || holds(comp, v));
        if holds(comp, v) {
            let i = choose|i: int| 0 <= i < comp.len() && #[trigger] comp[i] == v;
            assert(c2[i] == v);
        }
        if v == y {
            assert(c2[comp.len() as int] == v);
        }
        if holds(c2, v) && v != y {
            let i = choose|i: int| 0 <= i < c2.len() && #[trigger] c2[i] == v;
            assert(comp[i] == v);
        }
    }
    assert forall|i: int, z: int| 0 <= i < head && #[trigger] edge(
        back,
        c2[i] as int,
        z,
    ) implies 0 <= z < t2.len() && t2[z] by {
        assert(c2[i] == comp[i]);
    }
}

/// Whoever reaches a taken node and is reached from it is taken.
spec fn whole(adj: Seq<Vec<usize>>, taken: Seq<bool>) -> bool {
    forall|x: int, y: int|
        0 <= x < taken.len() && 0 <= y < taken.len() && taken[x] && #[trigger] mutual(adj, x, y)
            ==> taken[y]
}

/// A walk between two nodes keeps to numbers of nodes.
proof fn lemma_walk_in_range(adj: Seq<Vec<usize>>, p: Seq<int>, i: int)
    requires
        graph_ok(adj),
        is_walk(edges_in(adj), p),
        0 <= p[0] < adj.len(),
        0 <= i < p.len(),
    ensures
        0 <= p[i] < adj.len(),
    decreases i,
{
    if i > 0 {
        lemma_walk_in_range(adj, p, i - 1);
        assert(edges_in(adj)(p[i - 1], p[i - 1 + 1]));
        assert(edge(adj, p[i - 1], p[i]));
        let j = choose|j: int| 0 <= j < adj[p[i - 1]]@.len() && #[trigger] adj[p[i - 1]]@[j] == p[i];
        assert(adj[p[i - 1]]@[j] < adj.len());
    }
}

/// Everything mutual with `r` was collected.
proof fn lemma_mutual_collected(
    adj: Seq<Vec<usize>>,
    back: Seq<Vec<usize>>,
    free: Seq<bool>,
    taken: Seq<bool>,
    comp: Seq<usize>,
    r: int,
    p: Seq<int>,
    i: int,
)
    requires
        graph_ok(adj),
        reversed(adj, back),
        free.len() == adj.len(),
        collected(adj, back, free, taken, comp, r, comp.len() as int),
        whole(adj, free),
        0 <= r < adj.len(),
        !free[r],
        is_walk(edges_in(adj), p),
        0 <= p[0] < adj.len(),
        p.last() == r,
        reach(edges_in(adj), r, p[0]),
        0 <= i < p.len(),
    ensures
        holds(comp, p[i]),
    decreases p.len() - i,
{
    if i < p.len() - 1 {
        lemma_mutual_collected(adj, back, free, taken, comp, r, p, i + 1);
        let rel = edges_in(adj);
        assert(rel(p[i], p[i + 1]));
        assert(edge(adj, p[i], p[i + 1]));
        assert(edge(back, p[i + 1], p[i]));
        lemma_walk_in_range(adj, p, i);
        lemma_walk_inside(rel, p, i);
        lemma_reach_trans(rel, r, p[0], p[i]);
        assert(mutual(adj, p[i], r));
        assert(!free[p[i]]);
        let k = choose|k: int| 0 <= k < comp.len() && #[trigger] comp[k] == p[i + 1];
        assert(edge(back, comp[k] as int, p[i]));
        assert(taken[p[i]]);
    }
}

/// For every node: does it share mutual reach with another one?
fn mark_mutual(
    adj: &Vec<Vec<usize>>,
    back: &Vec<Vec<usize>>,
    order: &Vec<usize>,
    t: Ghost<Times>,
    now: Ghost<int>,
) -> (marks: Vec<bool>)
    requires
        graph_ok(adj@),
        graph_ok(back@),
        reversed(adj@, back@),
        timed(adj@, t@, now@),
        lists_done(t@, order@),
        forall|u: int| 0 <= u < adj@.len() ==> #[trigger] t@.done.contains_key(u),
    ensures
        marks@.len() == adj@.len(),
        forall|v: int|
            0 <= v < marks@.len() ==> (#[trigger] marks@[v] <==> exists|w: int|
                0 <= w < adj@.len() && w != v && #[trigger] mutual(adj@, v, w)),
{
    let n = adj.len();
    let mut taken: Vec<bool> = Vec::new();
    let mut marks: Vec<bool> = Vec::new();
    let mut k: usize = 0;
    while k < n
        invariant
            k <= n,
            taken@.len() == k,
            marks@.len() == k,
            forall|u: int| 0 <= u < k ==> !(#[trigger] taken@[u]),
            forall|u: int| 0 <= u < k ==> !(#[trigger] marks@[u]),
        decreases n - k,
    {
        taken.push(false);
        marks.push(false);
        k += 1;
    }
    let mut i: usize = order.len();
    while i > 0
        invariant
            i <= order@.len(),
            n == adj@.len(),
            graph_ok(adj@),
            graph_ok(back@),
            reversed(adj@, back@),
            timed(adj@, t@, now@),
            lists_done(t@, order@),
            forall|u: int| 0 <= u < adj@.len() ==> #[trigger] t@.done.contains_key(u),
            taken@.len() == n,
            marks@.len() == n,
            whole(adj@, taken@),
            forall|j: int|
                i <= j < order@.len() ==> (#[trigger] order@[j]) < n && taken@[order@[j] as int],
            forall|v: int| 0 <= v < n && !taken@[v] ==> !(#[trigger] marks@[v]),
            forall|v: int|
                0 <= v < n && taken@[v] ==> (#[trigger] marks@[v] <==> exists|w: int|
                    0 <= w < adj@.len() && w != v && #[trigger] mutual(adj@, v, w)),
        decreases i,
    {
        i -= 1;
        let r = order[i];
        assert(t@.done.contains_key(order@[i as int] as int));
        assert(t@.found.contains_key(r as int));
        if !taken[r] {
            let ghost free = taken@;
            let comp = collect(Ghost(adj@), back, &mut taken, r);
            let ghost rel = edges_in(adj@);
            proof {
                assert forall|z: int| 0 <= z < n && !free[z] implies t@.done[z]
                    <= #[trigger] t@.done[r as int] by {
                    assert(t@.done.contains_key(z));
                    let j = choose|j: int| 0 <= j < order@.len() && order@[j] == z;
                    if j > i {
                        assert(order@[j] < n);
                    }
                }
                assert forall|c: int| 0 <= c < comp@.len() implies mutual(
                    adj@,
                    (#[trigger] comp@[c]) as int,
                    r as int,
                ) by {
                    let x = comp@[c] as int;
                    assert(freely_reaches(adj@, free, x, r as int));
                    let p = choose|p: Seq<int>| free_walk(adj@, free, p, x, r as int);
                    assert forall|a: int| 0 <= a < p.len() implies t@.done.contains_key(
                        #[trigger] p[a],
                    ) && t@.done[p[a]] <= t@.done[r as int] by {
                        assert(!free[p[a]]);
                    }
                    lemma_back_reach(adj@, t@, now@, p, r as int);
                    assert(leads(rel, p, x, r as int));
                }
                assert forall|y: int| 0 <= y < n && #[trigger] mutual(
                    adj@,
                    r as int,
                    y,
                ) implies holds(comp@, y) by {
                    let p = choose|p: Seq<int>| leads(rel, p, y, r as int);
                    lemma_mutual_collected(adj@, back@, free, taken@, comp@, r as int, p, 0);
                }
                assert forall|x: int, y: int|
                    0 <= x < n && 0 <= y < n && taken@[x] && #[trigger] mutual(
                        adj@,
                        x,
                        y,
                    ) implies taken@[y] by {
                    assert(taken@[x] <==> free[x] || holds(comp@, x));
                    assert(taken@[y] <==> free[y] || holds(comp@, y));
                    if holds(comp@, x) {
                        let c = choose|c: int| 0 <= c < comp@.len() && #[trigger] comp@[c] == x;
                        assert(mutual(adj@, comp@[c] as int, r as int));
                        lemma_reach_trans(rel, r as int, x, y);
                        lemma_reach_trans(rel, y, x, r as int);
                        assert(mutual(adj@, r as int, y));
                    }
                }
                let c0 = choose|c: int| 0 <= c < comp@.len() && #[trigger] comp@[c] == r;
                assert(taken@[r as int]);
            }
            let several = comp.len() > 1;
            let ghost old_marks = marks@;
            let mut c: usize = 0;
            while c < comp.len()
                invariant
                    c <= comp@.len(),
                    n == adj@.len(),
                    taken@.len() == n,
                    marks@.len() == n,
                    old_marks.len() == n,
                    several == (comp@.len() > 1),
                    forall|a: int| 0 <= a < comp@.len() ==> (#[trigger] comp@[a]) < n,
                    forall|a: int, b: int|
                        0 <= a < b < comp@.len() ==> #[trigger] comp@[a] != #[trigger] comp@[b],
                    forall|a: int|
                        0 <= a < c ==> marks@[(#[trigger] comp@[a]) as int] == several,
                    forall|v: int|
                        0 <= v < n && !holds(comp@, v) ==> #[trigger] marks@[v] == old_marks[v],
                decreases comp@.len() - c,
            {
                let ghost before = marks@;
                assert(holds(comp@, comp@[c as int] as int));
                marks.set(comp[c], several);
                c += 1;
            }
            proof {
                assert forall|v: int| 0 <= v < n && !taken@[v] implies !(
                #[trigger] marks@[v]) by {
                    assert(taken@[v] <==> free[v] || holds(comp@, v));
                }
                assert forall|v: int| 0 <= v < n && taken@[v] implies (
                #[trigger] marks@[v] <==> exists|w: int|
                    0 <= w < adj@.len() && w != v && #[trigger] mutual(adj@, v, w)) by {
                    assert(taken@[v] <==> free[v] || holds(comp@, v));
                    if holds(comp@, v) {
                        let a = choose|a: int| 0 <= a < comp@.len() && #[trigger] comp@[a] == v;
                        assert(marks@[comp@[a] as int] == several);
                        assert(mutual(adj@, comp@[a] as int, r as int));
                        if several {
                            let b: int = if a == 0 {
                                1
                            } else {
                                0
                            };
                            let w = comp@[b] as int;
                            assert(mutual(adj@, w, r as int));
                            lemma_reach_trans(rel, v, r as int, w);
                            lemma_reach_trans(rel, w, r as int, v);
                            assert(mutual(adj@, v, w));
                            assert(w != v);
                        } else {
                            assert(comp@.len() == 1);
                            if exists|w: int|
                                0 <= w < adj@.len() && w != v && #[trigger] mutual(
                                    adj@,
                                    v,
                                    w,
                                ) {
                                let w = choose|w: int|
                                    0 <= w < adj@.len() && w != v && #[trigger] mutual(
                                        adj@,
                                        v,
                                        w,
                                    );
                                lemma_reach_trans(rel, r as int, v, w);
                                lemma_reach_trans(rel, w, v, r as int);
                                assert(mutual(adj@, r as int, w));
                                assert(holds(comp@, w));
                            }
                        }
                    } else {
                        assert(marks@[v] == old_marks[v]);
                    }
                }
                assert forall|j: int| i <= j < order@.len() implies (#[trigger] order@[j]) < n
                    && taken@[order@[j] as int] by {
                    if j > i {
                        let z = order@[j] as int;
                        assert(taken@[z] <==> free[z] || holds(comp@, z));
                    }
                }
            }
        }
    }
    proof {
        assert forall|v: int| 0 <= v < n implies taken@[v] by {
            assert(t@.done.contains_key(v));
            let j = choose|j: int| 0 <= j < order@.len() && order@[j] == v;
            assert(taken@[order@[j] as int]);
        }
    }
    marks
}

/// For every node of a graph, given with its edges in both directions: does
/// it lie on a cycle?
pub fn cyclic_nodes(adj: &Vec<Vec<usize>>, back: &Vec<Vec<usize>>) -> (r: Vec<bool>)
    requires
        graph_ok(adj@),
        graph_ok(back@),
        reversed(adj@, back@),
    ensures
        r@.len() == adj@.len(),
        forall|v: int|
            0 <= v < r@.len() ==> #[trigger] r@[v] == on_cycle(edges_in(adj@), v),
{
    let (order, t, now) = finishing_order(adj);
    let marks = mark_mutual(adj, back, &order, t, now);
    let mut out: Vec<bool> = Vec::new();
    let mut v: usize = 0;
    while v < adj.len()
        invariant
            v <= adj@.len(),
            graph_ok(adj@),
            out@.len() == v,
            marks@.len() == adj@.len(),
            forall|u: int|
                0 <= u < marks@.len() ==> (#[trigger] marks@[u] <==> exists|w: int|
                    0 <= w < adj@.len() && w != u && #[trigger] mutual(adj@, u, w)),
            forall|u: int| 0 <= u < v ==> #[trigger] out@[u] == on_cycle(edges_in(adj@), u),
        decreases adj@.len() - v,
    {
        let mut own: bool = false;
        let mut j: usize = 0;
        while j < adj[v].len()
            invariant
                v < adj@.len(),
                j <= adj@[v as int]@.len(),
                own == exists|k: int| 0 <= k < j && #[trigger] adj@[v as int]@[k] == v,
            decreases adj@[v as int]@.len() - j,
        {
            if adj[v][j] == v {
                own = true;
                assert(adj@[v as int]@[j as int] == v);
            }
            j += 1;
        }
        let b = own || marks[v];
        proof {
            let rel = edges_in(adj@);
            lemma_cycle_is_mutual(rel, v as int);
            assert(own == rel(v as int, v as int));
            if exists|w: int| w != v && #[trigger] reach(rel, v as int, w) && reach(
                rel,
                w,
                v as int,
            ) {
                let w = choose|w: int|
                    w != v && #[trigger] reach(rel, v as int, w) && reach(rel, w, v as int);
                let p = choose|p: Seq<int>| leads(rel, p, v as int, w);
                lemma_walk_in_range(adj@, p, p.len() - 1);
                assert(mutual(adj@, v as int, w));
            }
            if marks@[v as int] {
                let w = choose|w: int|
                    0 <= w < adj@.len() && w != v && #[trigger] mutual(adj@, v as int, w);
                assert(reach(rel, v as int, w));
            }
        }
        out.push(b);
        v += 1;
    }
    out
}

} // verus!
