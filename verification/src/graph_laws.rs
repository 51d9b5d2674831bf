//! What the graph measures say of the stored edges they are read off.

use vstd::prelude::*;

use crate::coreness;
use crate::digraph::EdgeRow;
use crate::graph;
use crate::names;
use crate::types;
use crate::types::EdgeConfidence;

verus! {

/// The row connects the two symbols, in either direction.
pub open spec fn connects(r: EdgeRow, a: Seq<char>, b: Seq<char>) -> bool {
    (r.from_symbol@ == a && r.to_symbol@ == b) || (r.from_symbol@ == b && r.to_symbol@ == a)
}

/// The confidence is neither of the two that confirm nothing.
pub open spec fn confirms(c: Seq<char>) -> bool {
    c != "ambiguous"@ && c != "unresolved"@
}

/// Some row that is not ruled out connects `a` with another symbol `b`; where
/// `strict`, one whose confidence confirms something.
pub open spec fn linked(rows: Seq<EdgeRow>, strict: bool, a: Seq<char>, b: Seq<char>) -> bool {
    a != b && exists|k: int|
        0 <= k < rows.len() && connects(#[trigger] rows[k], a, b) && !rows[k].ruled_out_by_scip && (
        strict ==> confirms(rows[k].edge_confidence@))
}

/// A spelling is read as the confidence that it spells, and no two confidences
/// share one; the order runs from the formal down to the two that confirm
/// nothing.
pub proof fn lemma_confidences(s: Seq<char>)
    ensures
        (types::parsed(s) == Some(EdgeConfidence::Formal)) <==> s == "formal"@,
        (types::parsed(s) == Some(EdgeConfidence::Resolved)) <==> s == "resolved"@,
        (types::parsed(s) == Some(EdgeConfidence::Inferred)) <==> s == "inferred"@,
        (types::parsed(s) == Some(EdgeConfidence::Textual)) <==> s == "textual"@,
        (types::parsed(s) == Some(EdgeConfidence::Ambiguous)) <==> s == "ambiguous"@,
        (types::parsed(s) == Some(EdgeConfidence::Unresolved)) <==> s == "unresolved"@,
        types::parsed(s) matches Some(c) ==> types::spelling(c) == s,
        types::rank_of(EdgeConfidence::Formal) > types::rank_of(EdgeConfidence::Resolved),
        types::rank_of(EdgeConfidence::Resolved) > types::rank_of(EdgeConfidence::Inferred),
        types::rank_of(EdgeConfidence::Inferred) > types::rank_of(EdgeConfidence::Textual),
        types::rank_of(EdgeConfidence::Textual) > types::rank_of(EdgeConfidence::Ambiguous),
        types::rank_of(EdgeConfidence::Ambiguous) == types::rank_of(EdgeConfidence::Unresolved),
{
    reveal_strlit("formal");
    reveal_strlit("resolved");
    reveal_strlit("inferred");
    reveal_strlit("textual");
    reveal_strlit("ambiguous");
    reveal_strlit("unresolved");
    assert("formal"@.len() == 6 && "textual"@.len() == 7 && "ambiguous"@.len() == 9);
    assert("unresolved"@.len() == 10 && "resolved"@.len() == 8 && "inferred"@.len() == 8);
    assert("resolved"@[0] == 'r');
    assert("inferred"@[0] == 'i');
}

/// A single row is a link exactly where it joins two different symbols, is not
/// ruled out and, in the strict graph, is neither ambiguous nor unresolved.
proof fn lemma_row_counts(strict: bool, r: EdgeRow)
    ensures
        coreness::counts(strict, r) <==> (r.from_symbol@ != r.to_symbol@ && !r.ruled_out_by_scip && (
        strict ==> confirms(r.edge_confidence@))),
{
    lemma_confidences(r.edge_confidence@);
}

/// Two symbols are linked in the graph exactly where a row that counts connects
/// them, whichever way it runs. In the strict graph every edge counts but the
/// ambiguous and the unresolved: formal, resolved, inferred and textual ones do,
/// and so does any confidence that has no name.
#[verifier::rlimit(40)]
pub proof fn lemma_links_are_rows(
    rows: Seq<EdgeRow>,
    strict: bool,
    a: Seq<char>,
    b: Seq<char>,
)
    ensures
        coreness::links(rows, strict).contains((a, b)) <==> linked(rows, strict, a, b),
    decreases rows.len(),
{
    let all = coreness::links(rows, strict);
    if rows.len() == 0 {
        assert(!all.contains((a, b)));
    } else {
        let n = rows.len() - 1;
        let less = rows.drop_last();
        let init = coreness::links(less, strict);
        let r = rows.last();
        lemma_links_are_rows(less, strict, a, b);
        lemma_row_counts(strict, r);
        assert(forall|k: int| 0 <= k < n ==> less[k] == rows[k]);
        if coreness::counts(strict, r) {
            let one = init.push((r.from_symbol@, r.to_symbol@));
            assert(all == one.push((r.to_symbol@, r.from_symbol@)));
            assert(all[init.len() as int] == (r.from_symbol@, r.to_symbol@));
            assert(all[init.len() as int + 1] == (r.to_symbol@, r.from_symbol@));
            assert(forall|k: int| 0 <= k < init.len() ==> all[k] == init[k]);
        }
        if all.contains((a, b)) {
            let k = choose|k: int| 0 <= k < all.len() && all[k] == (a, b);
            if k < init.len() {
                assert(init[k] == (a, b));
                let j = choose|j: int|
                    0 <= j < less.len() && connects(#[trigger] less[j], a, b)
                        && !less[j].ruled_out_by_scip && (strict ==> confirms(
                        less[j].edge_confidence@,
                    ));
                assert(connects(rows[j], a, b));
            } else {
                assert(connects(rows[n], a, b));
            }
        }
        if linked(rows, strict, a, b) {
            let j = choose|j: int|
                0 <= j < rows.len() && connects(#[trigger] rows[j], a, b)
                    && !rows[j].ruled_out_by_scip && (strict ==> confirms(
                    rows[j].edge_confidence@,
                ));
            if j < n {
                assert(connects(less[j], a, b));
                let k = choose|k: int| 0 <= k < init.len() && init[k] == (a, b);
                assert(all[k] == (a, b));
            } else {
                assert(all[init.len() as int] == (a, b) || all[init.len() as int + 1] == (a, b));
            }
        }
    }
}

/// A symbol has a measure exactly where it is linked to some other symbol.
pub proof fn lemma_measured(rows: Seq<EdgeRow>, strict: bool, a: Seq<char>)
    ensures
        crate::digraph::touched(coreness::links(rows, strict), a) <==> exists|b: Seq<char>|
            #[trigger] linked(rows, strict, a, b),
{
    let arcs = coreness::links(rows, strict);
    if crate::digraph::touched(arcs, a) {
        let i = choose|i: int|
            0 <= i < arcs.len() && ((#[trigger] arcs[i]).0 == a || arcs[i].1 == a);
        let (x, y) = arcs[i];
        assert(arcs.contains((x, y)));
        lemma_links_are_rows(rows, strict, x, y);
        lemma_links_are_rows(rows, strict, y, x);
        let k = choose|k: int|
            0 <= k < rows.len() && connects(#[trigger] rows[k], x, y)
                && !rows[k].ruled_out_by_scip && (strict ==> confirms(rows[k].edge_confidence@));
        assert(connects(rows[k], y, x));
        assert(linked(rows, strict, x, y) && linked(rows, strict, y, x));
    }
    if exists|b: Seq<char>| #[trigger] linked(rows, strict, a, b) {
        let b = choose|b: Seq<char>| #[trigger] linked(rows, strict, a, b);
        lemma_links_are_rows(rows, strict, a, b);
        let i = choose|i: int| 0 <= i < arcs.len() && arcs[i] == (a, b);
        assert(arcs[i].0 == a);
    }
}

/// Symbols that are all linked with one another have a core number of at least
/// the number of the others.
pub proof fn lemma_clique_core(
    rows: Seq<EdgeRow>,
    strict: bool,
    s: Set<Seq<char>>,
    a: Seq<char>,
    k: nat,
)
    requires
        s.finite(),
        s.contains(a),
        forall|x: Seq<char>, y: Seq<char>|
            s.contains(x) && s.contains(y) && x != y ==> #[trigger] linked(rows, strict, x, y),
        coreness::is_core_number(coreness::links(rows, strict), a, k),
    ensures
        k >= s.len() - 1,
{
    let arcs = coreness::links(rows, strict);
    vstd::set_lib::lemma_set_empty_equivalency_len(s);
    let m = (s.len() - 1) as nat;
    assert forall|x: Seq<char>| #[trigger] s.contains(x) implies s.filter(
        coreness::beside(arcs, x),
    ).len() >= m by {
        let others = s.remove(x);
        let near = s.filter(coreness::beside(arcs, x));
        assert forall|y: Seq<char>| #[trigger] others.contains(y) implies near.contains(y) by {
            assert(linked(rows, strict, x, y));
            lemma_links_are_rows(rows, strict, x, y);
        }
        vstd::set_lib::lemma_set_subset_finite(s, near);
        vstd::set_lib::lemma_len_subset(others, near);
    }
    assert(coreness::is_group(arcs, s, m));
    if k < m {
        coreness::lemma_group_weaken(arcs, a, m, k + 1);
    }
}

/// A core number is at most the number of symbols that a symbol is linked to.
pub proof fn lemma_core_bounded(
    rows: Seq<EdgeRow>,
    strict: bool,
    n: Set<Seq<char>>,
    a: Seq<char>,
    k: nat,
)
    requires
        n.finite(),
        forall|b: Seq<char>| #[trigger] linked(rows, strict, a, b) ==> n.contains(b),
        coreness::is_core_number(coreness::links(rows, strict), a, k),
    ensures
        k <= n.len(),
{
    let arcs = coreness::links(rows, strict);
    let s = choose|s: Set<Seq<char>>| #[trigger] coreness::is_group(arcs, s, k) && s.contains(a);
    let near = s.filter(coreness::beside(arcs, a));
    assert forall|b: Seq<char>| #[trigger] near.contains(b) implies n.contains(b) by {
        lemma_links_are_rows(rows, strict, a, b);
    }
    vstd::set_lib::lemma_len_subset(near, n);
}

/// In a group of which every member is linked to `k` others of the group, every
/// member has a core number of at least `k`.
pub proof fn lemma_core_of_group(
    rows: Seq<EdgeRow>,
    strict: bool,
    s: Set<Seq<char>>,
    near: spec_fn(Seq<char>) -> Set<Seq<char>>,
    a: Seq<char>,
    d: nat,
    k: nat,
)
    requires
        s.finite(),
        s.contains(a),
        forall|x: Seq<char>| #[trigger]
            s.contains(x) ==> near(x).subset_of(s) && near(x).len() >= d,
        forall|x: Seq<char>, y: Seq<char>|
            s.contains(x) && #[trigger] near(x).contains(y) ==> linked(rows, strict, x, y),
        coreness::is_core_number(coreness::links(rows, strict), a, k),
    ensures
        k >= d,
{
    let arcs = coreness::links(rows, strict);
    assert forall|x: Seq<char>| #[trigger] s.contains(x) implies s.filter(
        coreness::beside(arcs, x),
    ).len() >= d by {
        let all = s.filter(coreness::beside(arcs, x));
        assert forall|y: Seq<char>| #[trigger] near(x).contains(y) implies all.contains(y) by {
            assert(linked(rows, strict, x, y));
            lemma_links_are_rows(rows, strict, x, y);
        }
        vstd::set_lib::lemma_set_subset_finite(s, all);
        vstd::set_lib::lemma_len_subset(near(x), all);
    }
    assert(coreness::is_group(arcs, s, d));
    if k < d {
        coreness::lemma_group_weaken(arcs, a, d, k + 1);
    }
}

/// Some row that is not ruled out runs from `c` to `q`: one that is not
/// ambiguous or, where only verified calls are asked for, a formal or a resolved
/// one.
pub open spec fn calls_it(
    rows: Seq<EdgeRow>,
    q: Seq<char>,
    verified: bool,
    c: Seq<char>,
) -> bool {
    exists|k: int|
        0 <= k < rows.len() && (#[trigger] rows[k]).from_symbol@ == c && rows[k].to_symbol@ == q
            && !rows[k].ruled_out_by_scip && (if verified {
            rows[k].edge_confidence@ == "formal"@ || rows[k].edge_confidence@ == "resolved"@
        } else {
            rows[k].edge_confidence@ != "ambiguous"@
        })
}

#[verifier::rlimit(40)]
proof fn lemma_callers_among(
    all: Seq<EdgeRow>,
    q: Seq<char>,
    verified: bool,
    c: Seq<char>,
)
    ensures
        graph::callers_among(all.filter(graph::edge_into(q)), verified).contains(c) <==> calls_it(
            all,
            q,
            verified,
            c,
        ),
    decreases all.len(),
{
    reveal(Seq::filter);
    let sub = all.filter(graph::edge_into(q));
    let found = graph::callers_among(sub, verified);
    if all.len() > 0 {
        let less = all.drop_last();
        let kept = less.filter(graph::edge_into(q));
        let init = graph::callers_among(kept, verified);
        let e = all.last();
        lemma_callers_among(less, q, verified, c);
        lemma_confidences(e.edge_confidence@);
        assert(forall|k: int| 0 <= k < less.len() ==> less[k] == all[k]);
        if graph::edge_into(q)(e) {
            assert(sub == kept.push(e));
            assert(sub.drop_last() =~= kept);
            assert(sub.last() == e);
        } else {
            assert(sub == kept);
        }
        if found.contains(c) {
            let k = choose|k: int| 0 <= k < found.len() && found[k] == c;
            if k < init.len() {
                assert(init[k] == c);
                let j = choose|j: int|
                    0 <= j < less.len() && (#[trigger] less[j]).from_symbol@ == c
                        && less[j].to_symbol@ == q && !less[j].ruled_out_by_scip && (if verified {
                        less[j].edge_confidence@ == "formal"@ || less[j].edge_confidence@
                            == "resolved"@
                    } else {
                        less[j].edge_confidence@ != "ambiguous"@
                    });
                assert(all[j] == less[j]);
            } else {
                assert(all[all.len() - 1] == e);
            }
        }
        if calls_it(all, q, verified, c) {
            let j = choose|j: int|
                0 <= j < all.len() && (#[trigger] all[j]).from_symbol@ == c && all[j].to_symbol@
                    == q && !all[j].ruled_out_by_scip && (if verified {
                    all[j].edge_confidence@ == "formal"@ || all[j].edge_confidence@ == "resolved"@
                } else {
                    all[j].edge_confidence@ != "ambiguous"@
                });
            if j < less.len() {
                assert(less[j] == all[j]);
                let k = choose|k: int| 0 <= k < init.len() && init[k] == c;
                assert(found[k] == c);
            } else {
                assert(found[found.len() - 1] == c);
            }
        }
    } else {
        assert(sub =~= seq![]);
        assert(!found.contains(c));
    }
}

pub proof fn lemma_first_uses_distinct(s: Seq<Seq<char>>)
    ensures
        names::first_uses(s).no_duplicates(),
    decreases s.len(),
{
    if s.len() > 0 {
        lemma_first_uses_distinct(s.drop_last());
    }
}

/// The caller count of a symbol is the number of different symbols that call
/// it, however many edges each of them has.
pub proof fn lemma_caller_count(
    rows: Seq<EdgeRow>,
    q: Seq<char>,
    verified: bool,
    callers: Set<Seq<char>>,
)
    requires
        forall|c: Seq<char>| #[trigger] callers.contains(c) <==> calls_it(rows, q, verified, c),
    ensures
        graph::caller_count(rows, q, verified) == callers.len(),
{
    let found = graph::callers_among(rows.filter(graph::edge_into(q)), verified);
    let once = names::first_uses(found);
    lemma_first_uses_distinct(found);
    once.unique_seq_to_set();
    assert forall|c: Seq<char>| #[trigger] callers.contains(c) <==> once.to_set().contains(c) by {
        lemma_callers_among(rows, q, verified, c);
        names::lemma_first_uses_contains(found, c);
    }
    assert(callers =~= once.to_set());
}

} // verus!
