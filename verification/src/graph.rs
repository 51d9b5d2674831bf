//! Bringing the stored graph up to date: how much of it is built again, which
//! stored edges go, and how many callers each symbol has.

use crate::context;
use crate::context::ResolutionCtx;
use crate::digraph::EdgeRow;
use crate::driver::GraphMode;
use crate::edges::CallEdge;
use crate::names;
use crate::names::{KeyIndex, NameTable};
use crate::reconcile;
use crate::reconcile::{AmbiguityGroup, CallSiteRow};
use crate::text;
use crate::types;
use crate::types::EdgeConfidence;
use vstd::prelude::*;

verus! {

/// Above this many paths a full rebuild is cheaper than a scoped one, and it is
/// always right.
pub const MAX_INCREMENTAL_DELTA_PATHS: usize = 50;

// ---------------------------------------------------------------------------
// How much is built again
// ---------------------------------------------------------------------------

/// Is the path built again: because it changed, or because it calls a name that
/// a changed file has or had?
pub open spec fn in_delta(
    seed: Seq<Seq<char>>,
    names: Seq<Seq<char>>,
    calls: Seq<CallSiteRow>,
    path: Seq<char>,
) -> bool {
    seed.contains(path) || exists|i: int|
        0 <= i < calls.len() && (#[trigger] calls[i]).from_path@ == path && names.contains(
            calls[i].callee@,
        )
}

/// The paths whose calls are resolved again, each once: the changed ones, and
/// those that call a name of theirs.
pub fn expand_delta(seed: &Vec<String>, names: &NameTable, calls: &Vec<CallSiteRow>) -> (r: NameTable)
    requires
        names.wf(),
    ensures
        r.wf(),
        forall|p: Seq<char>| #[trigger]
            r@.contains(p) <==> in_delta(text::texts(seed@), names@, calls@, p),
{
    let mut r = NameTable::new();
    let ghost seeds = text::texts(seed@);
    let mut i: usize = 0;
    while i < seed.len()
        invariant
            i <= seed@.len(),
            seeds == text::texts(seed@),
            r.wf(),
            forall|p: Seq<char>| #[trigger] r@.contains(p) <==> seeds.take(i as int).contains(p),
        decreases seed@.len() - i,
    {
        let ghost before = r@;
        let p = seed[i].as_str();
        let _id: usize = r.intern(p);
        proof {
            lemma_step_contains(before, r@, p@);
            assert(seeds.take(i + 1) =~= seeds.take(i as int).push(p@));
            assert forall|q: Seq<char>| #[trigger] r@.contains(q) <==> seeds.take(
                i + 1,
            ).contains(q) by {
                lemma_push_contains(seeds.take(i as int), p@, q);
            }
        }
        i += 1;
    }
    assert(seeds.take(seeds.len() as int) =~= seeds);
    let mut j: usize = 0;
    while j < calls.len()
        invariant
            j <= calls@.len(),
            names.wf(),
            seeds == text::texts(seed@),
            r.wf(),
            forall|p: Seq<char>| #[trigger]
                r@.contains(p) <==> in_delta(seeds, names@, calls@.take(j as int), p),
        decreases calls@.len() - j,
    {
        let c = &calls[j];
        let ghost before = r@;
        let ghost had = calls@.take(j as int);
        let ghost has = calls@.take(j + 1);
        let known = names.contains(c.callee.as_str());
        if known {
            let _id: usize = r.intern(c.from_path.as_str());
            proof {
                lemma_step_contains(before, r@, c.from_path@);
            }
        }
        proof {
            assert forall|p: Seq<char>| #[trigger] r@.contains(p) <==> in_delta(
                seeds,
                names@,
                has,
                p,
            ) by {
                if in_delta(seeds, names@, had, p) && !seeds.contains(p) {
                    let k = choose|k: int|
                        0 <= k < had.len() && (#[trigger] had[k]).from_path@ == p
                            && names@.contains(had[k].callee@);
                    assert(has[k] == had[k]);
                }
                if in_delta(seeds, names@, has, p) && !seeds.contains(p) {
                    let k = choose|k: int|
                        0 <= k < has.len() && (#[trigger] has[k]).from_path@ == p
                            && names@.contains(has[k].callee@);
                    if k < j {
                        assert(had[k] == has[k]);
                    }
                }
                if known && p == c.from_path@ {
                    assert(has[j as int] == *c);
                }
                assert(before.contains(p) <==> in_delta(seeds, names@, had, p));
            }
        }
        j += 1;
    }
    assert(calls@.take(calls@.len() as int) =~= calls@);
    r
}

proof fn lemma_push_contains(s: Seq<Seq<char>>, x: Seq<char>, n: Seq<char>)
    ensures
        s.push(x).contains(n) <==> s.contains(n) || n == x,
{
    let t = s.push(x);
    if s.contains(n) {
        let k = choose|k: int| 0 <= k < s.len() && s[k] == n;
        assert(t[k] == n);
    }
    assert(t[s.len() as int] == x);
    if t.contains(n) {
        let k = choose|k: int| 0 <= k < t.len() && t[k] == n;
        if k < s.len() {
            assert(s[k] == n);
        }
    }
}

proof fn lemma_step_contains(before: Seq<Seq<char>>, after: Seq<Seq<char>>, x: Seq<char>)
    requires
        after == names::first_uses_step(before, x),
    ensures
        forall|n: Seq<char>| #[trigger] after.contains(n) <==> before.contains(n) || n == x,
{
    assert forall|n: Seq<char>| #[trigger] after.contains(n) <==> before.contains(n) || n
        == x by {
        if !before.contains(x) {
            lemma_push_contains(before, x, n);
        }
    }
}

/// Why a scoped update over so many paths is not made.
pub open spec fn fallback_reason(paths: nat) -> Seq<char> {
    "delta_paths.len()="@ + text::decimal(paths) + " > 50"@
}

/// How the graph is updated over the paths of `delta`.
pub fn plan_graph_update(delta: &NameTable) -> (r: GraphMode)
    ensures
        delta@.len() <= MAX_INCREMENTAL_DELTA_PATHS <==> r is Incremental,
        delta@.len() > MAX_INCREMENTAL_DELTA_PATHS <==> r is FullFallback,
        r matches GraphMode::FullFallback(reason) ==> reason@ == fallback_reason(delta@.len()),
{
    let n = delta.len();
    if n > MAX_INCREMENTAL_DELTA_PATHS {
        let mut reason: String = "delta_paths.len()=".to_owned();
        text::push_decimal(&mut reason, n as u64);
        text::push_text(&mut reason, " > 50");
        return GraphMode::FullFallback(reason);
    }
    GraphMode::Incremental
}

// ---------------------------------------------------------------------------
// Which stored edges go
// ---------------------------------------------------------------------------

/// One stored edge.
pub struct StoredEdge {
    pub id: i64,
    pub from_path: Option<String>,
    pub to_symbol: String,
}

/// Does the edge go: because its file is resolved again, or because its target
/// is not there any more?
pub open spec fn is_stale(e: StoredEdge, delta: Seq<Seq<char>>, symbols: Seq<Seq<char>>) -> bool {
    (e.from_path is Some && delta.contains(e.from_path->Some_0@)) || !symbols.contains(
        e.to_symbol@,
    )
}

/// The ids of the first `n` edges that go.
pub open spec fn stale_ids(
    edges: Seq<StoredEdge>,
    delta: Seq<Seq<char>>,
    symbols: Seq<Seq<char>>,
    n: nat,
) -> Seq<i64>
    decreases n,
{
    if n == 0 || n > edges.len() {
        seq![]
    } else {
        let init = stale_ids(edges, delta, symbols, (n - 1) as nat);
        if is_stale(edges[n - 1], delta, symbols) {
            init.push(edges[n - 1].id)
        } else {
            init
        }
    }
}

/// The stored edges that go before the paths of `delta` are resolved again.
pub fn stale_edges(edges: &Vec<StoredEdge>, delta: &NameTable, ctx: &ResolutionCtx) -> (r: Vec<i64>)
    requires
        delta.wf(),
        ctx.wf(),
    ensures
        r@ == stale_ids(edges@, delta@, context::qns_of(ctx.symbols()), edges@.len()),
{
    let mut out: Vec<i64> = Vec::new();
    let mut i: usize = 0;
    while i < edges.len()
        invariant
            i <= edges@.len(),
            delta.wf(),
            ctx.wf(),
            out@ == stale_ids(edges@, delta@, context::qns_of(ctx.symbols()), i as nat),
        decreases edges@.len() - i,
    {
        let e = &edges[i];
        let redone = match &e.from_path {
            Some(p) => delta.contains(p.as_str()),
            None => false,
        };
        if redone || !ctx.knows(e.to_symbol.as_str()) {
            out.push(e.id);
        }
        i += 1;
    }
    out
}

// ---------------------------------------------------------------------------
// The update
// ---------------------------------------------------------------------------

/// What changes in the stored graph.
pub struct GraphUpdate {
    pub mode: GraphMode,
    /// The paths whose records of ambiguity are replaced, for a scoped update.
    pub delta: NameTable,
    /// The stored edges that go.
    pub removed: Vec<i64>,
    /// The edges and records that come.
    pub edges: Vec<CallEdge>,
    pub groups: Vec<AmbiguityGroup>,
}

/// Sites in a file of `delta`, or in none.
pub open spec fn site_in(delta: Seq<Seq<char>>, inside: bool) -> spec_fn(CallSiteRow) -> bool {
    |s: CallSiteRow| delta.contains(s.from_path@) == inside
}

pub open spec fn ids_of(edges: Seq<StoredEdge>) -> Seq<i64> {
    edges.map_values(|e: StoredEdge| e.id)
}

fn all_ids(edges: &Vec<StoredEdge>) -> (r: Vec<i64>)
    ensures
        r@ == ids_of(edges@),
{
    let mut out: Vec<i64> = Vec::new();
    let mut i: usize = 0;
    while i < edges.len()
        invariant
            i <= edges@.len(),
            out@ =~= ids_of(edges@).take(i as int),
        decreases edges@.len() - i,
    {
        out.push(edges[i].id);
        i += 1;
    }
    assert(out@ =~= ids_of(edges@));
    out
}

fn copy_opt(o: &Option<String>) -> (r: Option<String>)
    ensures
        r == *o,
{
    match o {
        Some(s) => Some(s.clone()),
        None => None,
    }
}

fn copy_site(s: &CallSiteRow) -> (r: CallSiteRow)
    ensures
        r == *s,
{
    CallSiteRow {
        id: s.id,
        from_path: s.from_path.clone(),
        enclosing_qn: s.enclosing_qn.clone(),
        callee: s.callee.clone(),
        line: s.line,
        confidence: s.confidence.clone(),
        receiver: copy_opt(&s.receiver),
        target_class: copy_opt(&s.target_class),
        looks_option_or_result_chained: s.looks_option_or_result_chained,
        module_hint: copy_opt(&s.module_hint),
        edge_kind: s.edge_kind.clone(),
        arg_count: s.arg_count,
        import_segment: copy_opt(&s.import_segment),
        target_type_kind: copy_opt(&s.target_type_kind),
        target_type_qn: copy_opt(&s.target_type_qn),
    }
}

/// The sites of the files of `delta`.
fn sites_in(sites: &Vec<CallSiteRow>, delta: &NameTable) -> (r: Vec<CallSiteRow>)
    requires
        delta.wf(),
    ensures
        r@ == sites@.filter(site_in(delta@, true)),
{
    let mut out: Vec<CallSiteRow> = Vec::new();
    let mut i: usize = 0;
    proof {
        reveal(Seq::filter);
        assert(out@ =~= sites@.take(0).filter(site_in(delta@, true)));
    }
    while i < sites.len()
        invariant
            i <= sites@.len(),
            delta.wf(),
            out@ == sites@.take(i as int).filter(site_in(delta@, true)),
        decreases sites@.len() - i,
    {
        proof {
            reveal(Seq::filter);
            assert(sites@.take(i + 1).drop_last() =~= sites@.take(i as int));
            assert(sites@.take(i + 1).last() == sites@[i as int]);
        }
        if delta.contains(sites[i].from_path.as_str()) {
            out.push(copy_site(&sites[i]));
        }
        i += 1;
    }
    assert(sites@.take(sites@.len() as int) =~= sites@);
    out
}

/// Build the whole graph again: every stored edge goes, and every site is
/// resolved.
pub fn rebuild_graph(
    ctx: &ResolutionCtx,
    sites: &Vec<CallSiteRow>,
    stored: &Vec<StoredEdge>,
) -> (r: GraphUpdate)
    requires
        ctx.wf(),
    ensures
        r.mode == GraphMode::Full,
        r.delta.wf(),
        r.delta@.len() == 0,
        r.removed@ == ids_of(stored@),
        reconcile::edge_views(r.edges@) == reconcile::edges_of(*ctx, sites@),
        reconcile::group_views(r.groups@) == reconcile::groups_of(*ctx, sites@),
{
    let (edges, groups) = reconcile::resolve_sites_to_edges(ctx, sites);
    GraphUpdate {
        mode: GraphMode::Full,
        delta: NameTable::new(),
        removed: all_ids(stored),
        edges,
        groups,
    }
}

/// Bring the graph up to date after the files of `seed` changed, of which
/// `names` are all the names that they had or have: resolve again only the
/// sites that may see the change, or everything where those stand in too many
/// files.
pub fn incremental_graph_update(
    ctx: &ResolutionCtx,
    sites: &Vec<CallSiteRow>,
    stored: &Vec<StoredEdge>,
    seed: &Vec<String>,
    names: &NameTable,
) -> (r: GraphUpdate)
    requires
        ctx.wf(),
        names.wf(),
    ensures
        r.delta.wf(),
        forall|p: Seq<char>| #[trigger]
            r.delta@.contains(p) <==> in_delta(text::texts(seed@), names@, sites@, p),
        r.mode !is Full,
        r.mode is Incremental <==> r.delta@.len() <= MAX_INCREMENTAL_DELTA_PATHS,
        r.mode is Incremental ==> {
            &&& r.removed@ == stale_ids(
                stored@,
                r.delta@,
                context::qns_of(ctx.symbols()),
                stored@.len(),
            )
            &&& reconcile::edge_views(r.edges@) == reconcile::edges_of(
                *ctx,
                sites@.filter(site_in(r.delta@, true)),
            )
            &&& reconcile::group_views(r.groups@) == reconcile::groups_of(
                *ctx,
                sites@.filter(site_in(r.delta@, true)),
            )
        },
        r.mode matches GraphMode::FullFallback(reason) ==> {
            &&& reason@ == fallback_reason(r.delta@.len())
            &&& r.removed@ == ids_of(stored@)
            &&& reconcile::edge_views(r.edges@) == reconcile::edges_of(*ctx, sites@)
            &&& reconcile::group_views(r.groups@) == reconcile::groups_of(*ctx, sites@)
        },
{
    let delta = expand_delta(seed, names, sites);
    let mode = plan_graph_update(&delta);
    match mode {
        GraphMode::FullFallback(reason) => {
            let full = rebuild_graph(ctx, sites, stored);
            GraphUpdate {
                mode: GraphMode::FullFallback(reason),
                delta,
                removed: full.removed,
                edges: full.edges,
                groups: full.groups,
            }
        },
        _ => {
            let removed = stale_edges(stored, &delta, ctx);
            let own = sites_in(sites, &delta);
            let (edges, groups) = reconcile::resolve_sites_to_edges(ctx, &own);
            GraphUpdate { mode: GraphMode::Incremental, delta, removed, edges, groups }
        },
    }
}

// ---------------------------------------------------------------------------
// Callers
// ---------------------------------------------------------------------------

/// Does the edge count as a caller? One among several candidates does not, and
/// one that was ruled out does not.
pub open spec fn counts(e: EdgeRow) -> bool {
    !e.ruled_out_by_scip && e.edge_confidence@ != "ambiguous"@
}

/// Does the edge count as a verified caller: one that was resolved, not
/// inferred?
pub open spec fn counts_verified(e: EdgeRow) -> bool {
    !e.ruled_out_by_scip && (match types::parsed(e.edge_confidence@) {
        Some(c) => types::rank_of(c) >= types::rank_of(EdgeConfidence::Resolved),
        None => false,
    })
}

pub open spec fn edge_into(q: Seq<char>) -> spec_fn(EdgeRow) -> bool {
    |e: EdgeRow| e.to_symbol@ == q
}

/// The callers among some edges, with repetitions.
pub open spec fn callers_among(edges: Seq<EdgeRow>, verified: bool) -> Seq<Seq<char>>
    decreases edges.len(),
{
    if edges.len() == 0 {
        seq![]
    } else {
        let init = callers_among(edges.drop_last(), verified);
        let e = edges.last();
        if (verified && counts_verified(e)) || (!verified && counts(e)) {
            init.push(e.from_symbol@)
        } else {
            init
        }
    }
}

/// How many different callers a symbol has.
pub open spec fn caller_count(edges: Seq<EdgeRow>, q: Seq<char>, verified: bool) -> nat {
    names::first_uses(callers_among(edges.filter(edge_into(q)), verified)).len()
}

/// The number of callers of one symbol.
pub struct CallerCounts {
    pub caller_count: usize,
    pub verified_caller_count: usize,
}

/// The number of callers of every symbol.
pub fn refresh_caller_counts(symbols: &Vec<String>, edges: &Vec<EdgeRow>) -> (r: Vec<CallerCounts>)
    ensures
        r@.len() == symbols@.len(),
        forall|i: int|
            0 <= i < r@.len() ==> (#[trigger] r@[i]).caller_count == caller_count(
                edges@,
                symbols@[i]@,
                false,
            ) && r@[i].verified_caller_count == caller_count(edges@, symbols@[i]@, true),
{
    let mut by_target = KeyIndex::new();
    let mut k: usize = 0;
    while k < edges.len()
        invariant
            k <= edges@.len(),
            by_target.wf(),
            by_target@ =~= edges@.map_values(|e: EdgeRow| e.to_symbol@).take(k as int),
        decreases edges@.len() - k,
    {
        by_target.push(edges[k].to_symbol.as_str(), k);
        k += 1;
    }
    assert(by_target@ =~= edges@.map_values(|e: EdgeRow| e.to_symbol@));
    let mut out: Vec<CallerCounts> = Vec::new();
    let mut i: usize = 0;
    while i < symbols.len()
        invariant
            i <= symbols@.len(),
            by_target.wf(),
            by_target@ == edges@.map_values(|e: EdgeRow| e.to_symbol@),
            out@.len() == i,
            forall|j: int|
                0 <= j < i ==> (#[trigger] out@[j]).caller_count == caller_count(
                    edges@,
                    symbols@[j]@,
                    false,
                ) && out@[j].verified_caller_count == caller_count(edges@, symbols@[j]@, true),
        decreases symbols@.len() - i,
    {
        let q = symbols[i].as_str();
        let hits = by_target.get(q);
        let all = count_callers(edges, &by_target, q, &hits, false);
        let verified = count_callers(edges, &by_target, q, &hits, true);
        out.push(CallerCounts { caller_count: all, verified_caller_count: verified });
        i += 1;
    }
    out
}

fn count_callers(
    edges: &Vec<EdgeRow>,
    by_target: &KeyIndex,
    q: &str,
    hits: &Vec<usize>,
    verified: bool,
) -> (r: usize)
    requires
        by_target.wf(),
        by_target@ == edges@.map_values(|e: EdgeRow| e.to_symbol@),
        names::at(hits@) == names::positions(by_target@, q@),
        names::within(hits@, edges@.len()),
    ensures
        r == caller_count(edges@, q@, verified),
{
    let ghost own = names::pick(edges@, names::at(hits@));
    proof {
        names::lemma_pick_positions(edges@, by_target@, q@, edge_into(q@));
    }
    let mut seen = NameTable::new();
    let mut i: usize = 0;
    assert(own.take(0) =~= seq![]);
    assert(callers_among(own.take(0), verified) =~= seq![]);
    assert(seen@ =~= names::first_uses(callers_among(own.take(0), verified)));
    while i < hits.len()
        invariant
            i <= hits@.len(),
            names::within(hits@, edges@.len()),
            own == names::pick(edges@, names::at(hits@)),
            own.len() == hits@.len(),
            seen.wf(),
            seen@ == names::first_uses(callers_among(own.take(i as int), verified)),
        decreases hits@.len() - i,
    {
        let e = &edges[hits[i]];
        proof {
            assert(own[i as int] == *e);
            assert(own.take(i + 1).drop_last() =~= own.take(i as int));
            assert(own.take(i + 1).last() == *e);
        }
        let fits = if verified {
            !e.ruled_out_by_scip && match EdgeConfidence::parse(e.edge_confidence.as_str()) {
                Some(c) => c.is_verified(),
                None => false,
            }
        } else {
            !e.ruled_out_by_scip && !text::str_eq(e.edge_confidence.as_str(), "ambiguous")
        };
        if fits {
            let ghost had = callers_among(own.take(i as int), verified);
            let _id: usize = seen.intern(e.from_symbol.as_str());
            assert(had.push(e.from_symbol@).drop_last() =~= had);
        }
        i += 1;
    }
    assert(own.take(own.len() as int) =~= own);
    seen.len()
}

/// A verified caller is a caller: there are never more of the former.
pub proof fn lemma_verified_callers_are_callers(edges: Seq<EdgeRow>, n: Seq<char>)
    requires
        callers_among(edges, true).contains(n),
    ensures
        callers_among(edges, false).contains(n),
    decreases edges.len(),
{
    let a = callers_among(edges, true);
    let b = callers_among(edges, false);
    let init = callers_among(edges.drop_last(), true);
    let all = callers_among(edges.drop_last(), false);
    let e = edges.last();
    let k = choose|k: int| 0 <= k < a.len() && a[k] == n;
    if k < init.len() {
        assert(init[k] == n);
        lemma_verified_callers_are_callers(edges.drop_last(), n);
        let j = choose|j: int| 0 <= j < all.len() && all[j] == n;
        assert(b[j] == n);
    } else {
        lemma_ambiguous_is_not_verified();
        assert(counts(e));
        assert(b[all.len() as int] == n);
    }
}

proof fn lemma_ambiguous_is_not_verified()
    ensures
        types::parsed("ambiguous"@) == Some(EdgeConfidence::Ambiguous),
{
    types::lemma_parse_spelling(EdgeConfidence::Ambiguous);
}

/// An edge that is one of several candidates counts for none of them.
pub proof fn lemma_ambiguous_never_counts(e: EdgeRow)
    requires
        e.edge_confidence@ == types::spelling(EdgeConfidence::Ambiguous),
    ensures
        !counts(e),
        !counts_verified(e),
{
    lemma_ambiguous_is_not_verified();
}

} // verus!
