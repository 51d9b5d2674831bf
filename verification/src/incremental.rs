//! Why a scoped update may stand for a full one: what a call site resolves to
//! depends on little, and where that little did not change its edges did not.

use crate::context;
use crate::context::{ResolutionCtx, SymbolRow};
use crate::edges::CallEdgeView;
use crate::graph;
use crate::reconcile;
use crate::reconcile::{AmbiguityGroupView, CallSiteRow};
use vstd::prelude::*;

verus! {

// ---------------------------------------------------------------------------
// What a site depends on
// ---------------------------------------------------------------------------

/// No two symbols have one qualified name.
pub open spec fn unique_symbols(symbols: Seq<SymbolRow>) -> bool {
    forall|i: int, j: int|
        0 <= i < j < symbols.len() ==> (#[trigger] symbols[i]).qualified_name@ != (
        #[trigger] symbols[j]).qualified_name@
}

/// Two contexts that say the same of what a site depends on besides its
/// candidates: the language of the caller; for a receiver whose class does not
/// declare the callee itself, that class and its ancestors; and in C#, which of
/// the candidates the caller's imports bring in.
pub open spec fn same_surroundings(a: ResolutionCtx, b: ResolutionCtx, site: CallSiteRow) -> bool {
    let candidates = a.symbols().filter(context::named(site.callee@));
    &&& a.language(site.from_path@) == b.language(site.from_path@)
    &&& (site.target_class matches Some(c) ==> a.symbols().filter(
        context::member(site.callee@, c@),
    ).len() > 0 || {
        &&& (a.symbols().filter(context::named(c@)).len() > 0) == (b.symbols().filter(
            context::named(c@),
        ).len() > 0)
        &&& a.symbols().filter(context::named(c@)).len() > 0 ==> a.ancestors_of(c@)
            == b.ancestors_of(c@)
    })
    &&& a.language(site.from_path@) == Some("csharp"@) ==> forall|k: int|
        0 <= k < candidates.len() ==> a.in_scope(site.from_path@, (#[trigger] candidates[k]).path@)
            == b.in_scope(site.from_path@, candidates[k].path@)
}

/// Two contexts that say the same of all that a site depends on: the symbols
/// with the callee's name, and what surrounds the site.
pub open spec fn agree(a: ResolutionCtx, b: ResolutionCtx, site: CallSiteRow) -> bool {
    &&& a.symbols().filter(context::named(site.callee@)) == b.symbols().filter(
        context::named(site.callee@),
    )
    &&& same_surroundings(a, b, site)
}

/// Tests that agree on every row keep the same rows.
proof fn lemma_filter_agrees<T>(s: Seq<T>, p: spec_fn(T) -> bool, q: spec_fn(T) -> bool)
    requires
        forall|r: T| #[trigger] s.contains(r) ==> p(r) == q(r),
    ensures
        s.filter(p) == s.filter(q),
    decreases s.len(),
{
    reveal(Seq::filter);
    if s.len() > 0 {
        assert forall|r: T| #[trigger] s.drop_last().contains(r) implies p(r) == q(r) by {
            let k = choose|k: int| 0 <= k < s.drop_last().len() && s.drop_last()[k] == r;
            assert(s[k] == r);
            assert(s.contains(r));
        }
        lemma_filter_agrees(s.drop_last(), p, q);
        assert(s.contains(s.last()));
    }
}

proof fn lemma_member_local(a: Seq<SymbolRow>, b: Seq<SymbolRow>, n: Seq<char>, c: Seq<char>)
    requires
        a.filter(context::named(n)) == b.filter(context::named(n)),
    ensures
        a.filter(context::member(n, c)) == b.filter(context::member(n, c)),
{
    context::lemma_filter_twice(
        a,
        context::named(n),
        context::in_class(c),
        context::member(n, c),
    );
    context::lemma_filter_twice(
        b,
        context::named(n),
        context::in_class(c),
        context::member(n, c),
    );
}

proof fn lemma_declared_local(
    a: Seq<SymbolRow>,
    b: Seq<SymbolRow>,
    n: Seq<char>,
    level: Seq<Seq<char>>,
)
    requires
        a.filter(context::named(n)) == b.filter(context::named(n)),
    ensures
        reconcile::declared_at(a, n, level) == reconcile::declared_at(b, n, level),
    decreases level.len(),
{
    if level.len() > 0 {
        lemma_declared_local(a, b, n, level.drop_last());
        lemma_member_local(a, b, n, level.last());
    }
}

proof fn lemma_inherited_local(
    a: Seq<SymbolRow>,
    b: Seq<SymbolRow>,
    n: Seq<char>,
    levels: Seq<Seq<Seq<char>>>,
)
    requires
        a.filter(context::named(n)) == b.filter(context::named(n)),
    ensures
        reconcile::inherited(a, n, levels) == reconcile::inherited(b, n, levels),
    decreases levels.len(),
{
    if levels.len() > 0 {
        lemma_declared_local(a, b, n, levels[0]);
        lemma_inherited_local(a, b, n, levels.drop_first());
    }
}

proof fn lemma_found_local(a: ResolutionCtx, b: ResolutionCtx, site: CallSiteRow)
    requires
        agree(a, b, site),
    ensures
        reconcile::found(a, site) == reconcile::found(b, site),
{
    if let Some(c) = site.target_class {
        lemma_member_local(a.symbols(), b.symbols(), site.callee@, c@);
        let own = a.symbols().filter(context::member(site.callee@, c@));
        assert(reconcile::own_members(a, site, c@).len() > 0 <==> own.len() > 0);
        if let Some(levels) = a.ancestors_of(c@) {
            lemma_inherited_local(a.symbols(), b.symbols(), site.callee@, levels);
        }
    }
}

proof fn lemma_no_such_name(symbols: Seq<SymbolRow>, q: Seq<char>)
    requires
        forall|i: int| 0 <= i < symbols.len() ==> (#[trigger] symbols[i]).qualified_name@ != q,
    ensures
        symbols.filter(context::has_qn(q)) == Seq::<SymbolRow>::empty(),
    decreases symbols.len(),
{
    reveal(Seq::filter);
    if symbols.len() > 0 {
        assert forall|i: int| 0 <= i < symbols.drop_last().len() implies (
        #[trigger] symbols.drop_last()[i]).qualified_name@ != q by {
            assert(symbols[i] == symbols.drop_last()[i]);
        }
        lemma_no_such_name(symbols.drop_last(), q);
        assert(symbols[symbols.len() - 1].qualified_name@ != q);
    } else {
        assert(symbols.filter(context::has_qn(q)) =~= Seq::<SymbolRow>::empty());
    }
}

/// A symbol is the only one with its qualified name.
proof fn lemma_only_one(symbols: Seq<SymbolRow>, r: SymbolRow)
    requires
        unique_symbols(symbols),
        symbols.contains(r),
    ensures
        symbols.filter(context::has_qn(r.qualified_name@)) == seq![r],
    decreases symbols.len(),
{
    reveal(Seq::filter);
    let q = r.qualified_name@;
    let init = symbols.drop_last();
    let k = choose|k: int| 0 <= k < symbols.len() && symbols[k] == r;
    assert forall|i: int, j: int| 0 <= i < j < init.len() implies (
    #[trigger] init[i]).qualified_name@ != (#[trigger] init[j]).qualified_name@ by {
        assert(symbols[i] == init[i]);
        assert(symbols[j] == init[j]);
    }
    if k < init.len() {
        assert(init[k] == r);
        assert(init.contains(r));
        lemma_only_one(init, r);
        assert(symbols[k].qualified_name@ != symbols[symbols.len() - 1].qualified_name@);
    } else {
        assert forall|i: int| 0 <= i < init.len() implies (#[trigger] init[i]).qualified_name@
            != q by {
            assert(symbols[i] == init[i]);
            assert(symbols[i].qualified_name@ != symbols[k].qualified_name@);
        }
        lemma_no_such_name(init, q);
        assert(Seq::<SymbolRow>::empty().push(r) =~= seq![r]);
    }
}

/// What is recorded last of a symbol's name is what the symbol itself says.
proof fn lemma_last_is_own(
    symbols: Seq<SymbolRow>,
    r: SymbolRow,
    p: spec_fn(SymbolRow) -> bool,
)
    requires
        unique_symbols(symbols),
        symbols.contains(r),
    ensures
        context::last_of(symbols, r.qualified_name@, p) == (if p(r) {
            Some(r)
        } else {
            None
        }),
{
    lemma_only_one(symbols, r);
    reveal(Seq::filter);
    let one = seq![r];
    assert(one.drop_last() =~= Seq::<SymbolRow>::empty());
    assert(one.drop_last().filter(p) =~= Seq::<SymbolRow>::empty());
    assert(one.filter(p) =~= if p(r) {
        one
    } else {
        Seq::<SymbolRow>::empty()
    });
}

proof fn lemma_compilable_local(a: ResolutionCtx, b: ResolutionCtx, site: CallSiteRow)
    requires
        unique_symbols(a.symbols()),
        unique_symbols(b.symbols()),
        agree(a, b, site),
    ensures
        reconcile::compilable(a, site) == reconcile::compilable(b, site),
        reconcile::by_arity(a, site) == reconcile::by_arity(b, site),
{
    lemma_found_local(a, b, site);
    reconcile::lemma_found_sound(a, site);
    reconcile::lemma_found_sound(b, site);
    let all = reconcile::found(a, site).0;
    let spoken = all.filter(reconcile::speaks(a.language(site.from_path@)));
    assert forall|r: SymbolRow| #[trigger] spoken.contains(r) implies all.contains(r) by {
        reconcile::lemma_filter_sub(all, reconcile::speaks(a.language(site.from_path@)), r);
    }
    let p = reconcile::unwrappable(a.symbols());
    let q = reconcile::unwrappable(b.symbols());
    assert forall|r: SymbolRow| #[trigger] spoken.contains(r) implies p(r) == q(r) by {
        assert(all.contains(r));
        lemma_last_is_own(a.symbols(), r, reconcile::any_row());
        lemma_last_is_own(b.symbols(), r, reconcile::any_row());
    }
    lemma_filter_agrees(spoken, p, q);
    let c = reconcile::compilable(a, site);
    let n = site.arg_count->0;
    let t = reconcile::takes(a.symbols(), n);
    let u = reconcile::takes(b.symbols(), n);
    assert forall|r: SymbolRow| #[trigger] c.contains(r) implies t(r) == u(r) by {
        if site.looks_option_or_result_chained {
            reconcile::lemma_filter_sub(spoken, p, r);
        }
        assert(spoken.contains(r));
        assert(all.contains(r));
        lemma_last_is_own(a.symbols(), r, reconcile::counted());
        lemma_last_is_own(b.symbols(), r, reconcile::counted());
    }
    lemma_filter_agrees(c, t, u);
}

proof fn lemma_fitting_named(ctx: ResolutionCtx, site: CallSiteRow, r: SymbolRow)
    requires
        reconcile::fitting(ctx, site).contains(r),
    ensures
        ctx.symbols().filter(context::named(site.callee@)).contains(r),
{
    reconcile::lemma_found_sound(ctx, site);
    let all = reconcile::found(ctx, site).0;
    let spoken = all.filter(reconcile::speaks(ctx.language(site.from_path@)));
    let c = reconcile::compilable(ctx, site);
    if !c.contains(r) {
        reconcile::lemma_filter_sub(c, reconcile::takes(ctx.symbols(), site.arg_count->0), r);
    }
    if !spoken.contains(r) {
        reconcile::lemma_filter_sub(spoken, reconcile::unwrappable(ctx.symbols()), r);
    }
    reconcile::lemma_filter_sub(all, reconcile::speaks(ctx.language(site.from_path@)), r);
    let k = choose|k: int| 0 <= k < ctx.symbols().len() && ctx.symbols()[k] == r;
    ctx.symbols().lemma_filter_contains_rev(context::named(site.callee@), r);
}

/// What a site resolves to depends on the symbols with the callee's name, on
/// the caller's language, in C# on its imports, and on the receiver's class and
/// its ancestors where that class does not declare the callee itself; on no
/// other symbol and no other file.
pub proof fn lemma_verdict_local(a: ResolutionCtx, b: ResolutionCtx, site: CallSiteRow)
    requires
        unique_symbols(a.symbols()),
        unique_symbols(b.symbols()),
        agree(a, b, site),
    ensures
        reconcile::verdict(a, site) == reconcile::verdict(b, site),
{
    lemma_found_local(a, b, site);
    lemma_compilable_local(a, b, site);
    let t = reconcile::fitting(a, site);
    assert(t == reconcile::fitting(b, site));
    let p = reconcile::brought_in(a, site.from_path@);
    let q = reconcile::brought_in(b, site.from_path@);
    let candidates = a.symbols().filter(context::named(site.callee@));
    if a.language(site.from_path@) == Some("csharp"@) {
        assert forall|r: SymbolRow| #[trigger] t.contains(r) implies p(r) == q(r) by {
            lemma_fitting_named(a, site, r);
            let k = choose|k: int| 0 <= k < candidates.len() && candidates[k] == r;
            assert(a.in_scope(site.from_path@, candidates[k].path@) == b.in_scope(
                site.from_path@,
                candidates[k].path@,
            ));
        }
        lemma_filter_agrees(t, p, q);
    }
}

// ---------------------------------------------------------------------------
// Sites inside and outside of a set of paths
// ---------------------------------------------------------------------------

pub open spec fn edge_in(delta: Seq<Seq<char>>, inside: bool) -> spec_fn(CallEdgeView) -> bool {
    |e: CallEdgeView| (e.from_path is Some && delta.contains(e.from_path->0)) == inside
}

pub open spec fn group_in(delta: Seq<Seq<char>>, inside: bool) -> spec_fn(
    AmbiguityGroupView,
) -> bool {
    |g: AmbiguityGroupView| delta.contains(g.from_path) == inside
}

/// No two sites have one id.
pub open spec fn unique_sites(sites: Seq<CallSiteRow>) -> bool {
    forall|i: int, j: int|
        0 <= i < j < sites.len() ==> (#[trigger] sites[i]).id != (#[trigger] sites[j]).id
}

proof fn lemma_keep_all(edges: Seq<CallEdgeView>, p: spec_fn(CallEdgeView) -> bool, keep: bool)
    requires
        forall|k: int| 0 <= k < edges.len() ==> p(#[trigger] edges[k]) == keep,
    ensures
        edges.filter(p) == (if keep {
            edges
        } else {
            seq![]
        }),
    decreases edges.len(),
{
    reveal(Seq::filter);
    if edges.len() > 0 {
        let init = edges.drop_last();
        assert forall|k: int| 0 <= k < init.len() implies p(#[trigger] init[k]) == keep by {
            assert(edges[k] == init[k]);
        }
        lemma_keep_all(init, p, keep);
        assert(p(edges[edges.len() - 1]) == keep);
        assert(init.push(edges.last()) =~= edges);
    } else {
        assert(edges.filter(p) =~= edges);
    }
}

proof fn lemma_site_filter_sub(s: Seq<CallSiteRow>, p: spec_fn(CallSiteRow) -> bool, k: int)
    requires
        0 <= k < s.filter(p).len(),
    ensures
        s.contains(s.filter(p)[k]),
        p(s.filter(p)[k]),
    decreases s.len(),
{
    reveal(Seq::filter);
    if s.len() > 0 {
        let init = s.drop_last().filter(p);
        if k < init.len() {
            lemma_site_filter_sub(s.drop_last(), p, k);
            let j = choose|j: int| 0 <= j < s.drop_last().len() && s.drop_last()[j] == init[k];
            assert(s[j] == init[k]);
        } else {
            assert(s[s.len() - 1] == s.filter(p)[k]);
        }
    }
}

/// Of the edges of all sites, those of the sites on one side of a set of paths
/// are the edges that those sites get by themselves; and so of the records.
pub proof fn lemma_sides_are_separate(
    ctx: ResolutionCtx,
    sites: Seq<CallSiteRow>,
    delta: Seq<Seq<char>>,
    inside: bool,
)
    requires
        unique_sites(sites),
    ensures
        reconcile::edges_of(ctx, sites).filter(edge_in(delta, inside)) == reconcile::edges_of(
            ctx,
            sites.filter(graph::site_in(delta, inside)),
        ),
        reconcile::groups_of(ctx, sites).filter(group_in(delta, inside)) == reconcile::groups_of(
            ctx,
            sites.filter(graph::site_in(delta, inside)),
        ),
    decreases sites.len(),
{
    reveal(Seq::filter);
    let p = graph::site_in(delta, inside);
    let pe = edge_in(delta, inside);
    let pg = group_in(delta, inside);
    if sites.len() == 0 {
        assert(sites.filter(p) =~= sites);
        assert(reconcile::edges_of(ctx, sites).filter(pe) =~= seq![]);
        assert(reconcile::groups_of(ctx, sites).filter(pg) =~= seq![]);
    } else {
        let init = sites.drop_last();
        let site = sites.last();
        let one = seq![site];
        assert(init + one =~= sites);
        assert forall|i: int, j: int| 0 <= i < j < init.len() implies (#[trigger] init[i]).id != (
        #[trigger] init[j]).id by {
            assert(sites[i] == init[i]);
            assert(sites[j] == init[j]);
        }
        assert forall|i: int, j: int| 0 <= i < init.len() && 0 <= j < one.len() implies (
        #[trigger] init[i]).id != (#[trigger] one[j]).id by {
            assert(sites[i] == init[i]);
            assert(sites[sites.len() - 1] == one[j]);
        }
        lemma_sides_are_separate(ctx, init, delta, inside);
        reconcile::lemma_resolution_splits(ctx, init, one);
        let own = reconcile::edges_of(ctx, one);
        reconcile::lemma_edges_accounted(ctx, one);
        assert forall|k: int| 0 <= k < own.len() implies pe(#[trigger] own[k]) == p(site) by {
            assert(reconcile::accounted(ctx, one, own[k]));
            let (s, t) = choose|s: int, t: int|
                0 <= s < one.len() && 0 <= t < reconcile::verdict(ctx, one[s]).targets.len()
                    && own[k] == #[trigger] reconcile::edge_to(
                    one[s],
                    reconcile::verdict(ctx, one[s]),
                    reconcile::verdict(ctx, one[s]).targets[t],
                );
            assert(one[s] == site);
        }
        lemma_keep_all(own, pe, p(site));
        Seq::filter_distributes_over_add(reconcile::edges_of(ctx, init), own, pe);
        let kept = init.filter(p);
        assert(reconcile::edges_of(ctx, kept) + seq![] =~= reconcile::edges_of(ctx, kept));
        let more = reconcile::groups_of(ctx, init);
        match reconcile::verdict(ctx, site).overflow {
            Some(c) => {
                let g = reconcile::group_for(site, c);
                assert(more.push(g).drop_last() =~= more);
                assert(pg(g) == p(site));
            },
            None => {},
        }
        if p(site) {
            assert forall|i: int, j: int| 0 <= i < kept.len() && 0 <= j < one.len() implies (
            #[trigger] kept[i]).id != (#[trigger] one[j]).id by {
                lemma_site_filter_sub(init, p, i);
                let x = choose|x: int| 0 <= x < init.len() && init[x] == kept[i];
                assert(init[x].id != one[j].id);
            }
            reconcile::lemma_resolution_splits(ctx, kept, one);
            assert(sites.filter(p) =~= kept + one);
            assert((kept + one).drop_last() =~= kept);
            assert((kept + one).last() == site);
        } else {
            assert(sites.filter(p) =~= kept);
        }
    }
}

/// A site resolves to the same in both contexts.
pub open spec fn resolves_alike(a: ResolutionCtx, b: ResolutionCtx, site: CallSiteRow) -> bool {
    reconcile::verdict(a, site) == reconcile::verdict(b, site)
}

proof fn lemma_same_edges(a: ResolutionCtx, b: ResolutionCtx, sites: Seq<CallSiteRow>)
    requires
        forall|i: int| 0 <= i < sites.len() ==> resolves_alike(a, b, #[trigger] sites[i]),
    ensures
        reconcile::edges_of(a, sites) == reconcile::edges_of(b, sites),
        reconcile::groups_of(a, sites) == reconcile::groups_of(b, sites),
    decreases sites.len(),
{
    if sites.len() > 0 {
        let init = sites.drop_last();
        assert forall|i: int| 0 <= i < init.len() implies resolves_alike(
            a,
            b,
            #[trigger] init[i],
        ) by {
            assert(sites[i] == init[i]);
        }
        lemma_same_edges(a, b, init);
        assert(resolves_alike(a, b, sites[sites.len() - 1]));
    }
}

// ---------------------------------------------------------------------------
// The laws
// ---------------------------------------------------------------------------

/// A scoped update gives what a full one would: where every site outside of
/// `delta` is still there and resolves as before, the edges and records of a
/// full resolution are the old ones outside of `delta`, and inside of it those
/// that resolving only its own sites gives.
pub proof fn lemma_incremental_is_full(
    before: ResolutionCtx,
    after: ResolutionCtx,
    old_sites: Seq<CallSiteRow>,
    sites: Seq<CallSiteRow>,
    delta: Seq<Seq<char>>,
)
    requires
        unique_sites(old_sites),
        unique_sites(sites),
        old_sites.filter(graph::site_in(delta, false)) == sites.filter(graph::site_in(delta, false)),
        forall|i: int|
            0 <= i < sites.len() && !delta.contains(sites[i].from_path@) ==> resolves_alike(
                before,
                after,
                #[trigger] sites[i],
            ),
    ensures
        reconcile::edges_of(after, sites).filter(edge_in(delta, false)) == reconcile::edges_of(
            before,
            old_sites,
        ).filter(edge_in(delta, false)),
        reconcile::edges_of(after, sites).filter(edge_in(delta, true)) == reconcile::edges_of(
            after,
            sites.filter(graph::site_in(delta, true)),
        ),
        reconcile::groups_of(after, sites).filter(group_in(delta, false)) == reconcile::groups_of(
            before,
            old_sites,
        ).filter(group_in(delta, false)),
        reconcile::groups_of(after, sites).filter(group_in(delta, true)) == reconcile::groups_of(
            after,
            sites.filter(graph::site_in(delta, true)),
        ),
{
    lemma_sides_are_separate(after, sites, delta, true);
    lemma_sides_are_separate(after, sites, delta, false);
    lemma_sides_are_separate(before, old_sites, delta, false);
    let kept = sites.filter(graph::site_in(delta, false));
    assert forall|i: int| 0 <= i < kept.len() implies resolves_alike(
        before,
        after,
        #[trigger] kept[i],
    ) by {
        lemma_site_filter_sub(sites, graph::site_in(delta, false), i);
        let x = choose|x: int| 0 <= x < sites.len() && sites[x] == kept[i];
        assert(resolves_alike(before, after, sites[x]));
    }
    lemma_same_edges(before, after, kept);
}

/// Edges that a scoped update keeps: their file is not resolved again, and
/// their target is still there.
pub open spec fn kept(delta: Seq<Seq<char>>, symbols: Seq<Seq<char>>) -> spec_fn(
    CallEdgeView,
) -> bool {
    |e: CallEdgeView|
        !(e.from_path is Some && delta.contains(e.from_path->0)) && symbols.contains(e.to_symbol)
}

/// An edge that is kept never leads to a symbol that is gone: of the edges of
/// the old resolution, those outside of `delta` still have their targets.
pub proof fn lemma_kept_edges_have_targets(
    before: ResolutionCtx,
    after: ResolutionCtx,
    site: CallSiteRow,
    t: int,
)
    requires
        resolves_alike(before, after, site),
        0 <= t < reconcile::verdict(before, site).targets.len(),
    ensures
        context::qns_of(after.symbols()).contains(
            reconcile::verdict(before, site).targets[t].qualified_name@,
        ),
{
    reconcile::lemma_targets_sound(after, site, t);
    let r = reconcile::verdict(before, site).targets[t];
    let k = choose|k: int| 0 <= k < after.symbols().len() && after.symbols()[k] == r;
    assert(context::qns_of(after.symbols())[k] == r.qualified_name@);
}

/// A scoped update leaves the graph as a full one would: what it keeps of the
/// old edges are the edges of a full resolution outside of `delta`, and what it
/// adds are those inside.
pub proof fn lemma_scoped_update_is_full(
    before: ResolutionCtx,
    after: ResolutionCtx,
    old_sites: Seq<CallSiteRow>,
    sites: Seq<CallSiteRow>,
    delta: Seq<Seq<char>>,
)
    requires
        unique_sites(old_sites),
        unique_sites(sites),
        old_sites.filter(graph::site_in(delta, false)) == sites.filter(
            graph::site_in(delta, false),
        ),
        forall|i: int|
            0 <= i < sites.len() && !delta.contains(sites[i].from_path@) ==> resolves_alike(
                before,
                after,
                #[trigger] sites[i],
            ),
    ensures
        reconcile::edges_of(before, old_sites).filter(
            kept(delta, context::qns_of(after.symbols())),
        ) == reconcile::edges_of(after, sites).filter(edge_in(delta, false)),
        reconcile::edges_of(after, sites.filter(graph::site_in(delta, true)))
            == reconcile::edges_of(after, sites).filter(edge_in(delta, true)),
{
    lemma_incremental_is_full(before, after, old_sites, sites, delta);
    let old_edges = reconcile::edges_of(before, old_sites);
    let p = kept(delta, context::qns_of(after.symbols()));
    let q = edge_in(delta, false);
    reconcile::lemma_edges_accounted(before, old_sites);
    assert forall|e: CallEdgeView| #[trigger] old_edges.contains(e) implies p(e) == q(e) by {
        let k = choose|k: int| 0 <= k < old_edges.len() && old_edges[k] == e;
        assert(reconcile::accounted(before, old_sites, old_edges[k]));
        let (s, t) = choose|s: int, t: int|
            0 <= s < old_sites.len() && 0 <= t < reconcile::verdict(
                before,
                old_sites[s],
            ).targets.len() && e == #[trigger] reconcile::edge_to(
                old_sites[s],
                reconcile::verdict(before, old_sites[s]),
                reconcile::verdict(before, old_sites[s]).targets[t],
            );
        let site = old_sites[s];
        if !delta.contains(site.from_path@) {
            old_sites.lemma_filter_contains(graph::site_in(delta, false), s);
            assert(sites.filter(graph::site_in(delta, false)).contains(site));
            let x = choose|x: int|
                0 <= x < sites.filter(graph::site_in(delta, false)).len() && sites.filter(
                    graph::site_in(delta, false),
                )[x] == site;
            lemma_site_filter_sub(sites, graph::site_in(delta, false), x);
            let y = choose|y: int| 0 <= y < sites.len() && sites[y] == site;
            assert(resolves_alike(before, after, sites[y]));
            lemma_kept_edges_have_targets(before, after, site, t);
        }
    }
    lemma_filter_agrees(old_edges, p, q);
}

/// Symbols outside of some files.
pub open spec fn elsewhere(files: Seq<Seq<char>>) -> spec_fn(SymbolRow) -> bool {
    |r: SymbolRow| !files.contains(r.path@)
}

proof fn lemma_named_elsewhere(
    symbols: Seq<SymbolRow>,
    files: Seq<Seq<char>>,
    names: Seq<Seq<char>>,
    n: Seq<char>,
)
    requires
        !names.contains(n),
        forall|i: int|
            0 <= i < symbols.len() && files.contains((#[trigger] symbols[i]).path@)
                ==> names.contains(symbols[i].name@),
    ensures
        symbols.filter(context::named(n)) == symbols.filter(elsewhere(files)).filter(
            context::named(n),
        ),
{
    let both = |r: SymbolRow| elsewhere(files)(r) && context::named(n)(r);
    context::lemma_filter_twice(symbols, elsewhere(files), context::named(n), both);
    assert forall|r: SymbolRow| #[trigger] symbols.contains(r) implies context::named(n)(r) == both(
        r,
    ) by {
        let k = choose|k: int| 0 <= k < symbols.len() && symbols[k] == r;
        if files.contains(symbols[k].path@) {
            assert(names.contains(symbols[k].name@));
        }
    }
    lemma_filter_agrees(symbols, context::named(n), both);
}

/// The expanded set of paths is wide enough: a call that it leaves out calls a
/// name that no changed file had or has, so that its candidates are the same
/// before and after the change.
pub proof fn lemma_delta_is_wide_enough(
    before: Seq<SymbolRow>,
    after: Seq<SymbolRow>,
    changed: Seq<Seq<char>>,
    names: Seq<Seq<char>>,
    calls: Seq<CallSiteRow>,
    k: int,
)
    requires
        0 <= k < calls.len(),
        !graph::in_delta(changed, names, calls, calls[k].from_path@),
        before.filter(elsewhere(changed)) == after.filter(elsewhere(changed)),
        forall|i: int|
            0 <= i < before.len() && changed.contains((#[trigger] before[i]).path@)
                ==> names.contains(before[i].name@),
        forall|i: int|
            0 <= i < after.len() && changed.contains((#[trigger] after[i]).path@)
                ==> names.contains(after[i].name@),
    ensures
        before.filter(context::named(calls[k].callee@)) == after.filter(
            context::named(calls[k].callee@),
        ),
{
    let n = calls[k].callee@;
    assert(!names.contains(n));
    lemma_named_elsewhere(before, changed, names, n);
    lemma_named_elsewhere(after, changed, names, n);
}

proof fn lemma_outside_twice(
    sites: Seq<CallSiteRow>,
    changed: Seq<Seq<char>>,
    delta: Seq<Seq<char>>,
)
    requires
        forall|p: Seq<char>| #[trigger] changed.contains(p) ==> delta.contains(p),
    ensures
        sites.filter(graph::site_in(changed, false)).filter(graph::site_in(delta, false))
            == sites.filter(graph::site_in(delta, false)),
    decreases sites.len(),
{
    reveal(Seq::filter);
    if sites.len() > 0 {
        let p = graph::site_in(changed, false);
        let init = sites.drop_last();
        lemma_outside_twice(init, changed, delta);
        if p(sites.last()) {
            assert(init.filter(p).push(sites.last()).drop_last() =~= init.filter(p));
        } else {
            assert(changed.contains(sites.last().from_path@));
        }
    }
}

/// An update after some files changed leaves the graph as a full one would.
/// Only the symbols and the calls of the changed files are new, `names` has
/// every name those files had or have, and `delta` is what these two reach.
/// What is kept of the old edges and records, together with what is resolved
/// again, is then what a resolution of everything gives.
pub proof fn lemma_update_after_a_change_is_full(
    before: ResolutionCtx,
    after: ResolutionCtx,
    old_sites: Seq<CallSiteRow>,
    sites: Seq<CallSiteRow>,
    changed: Seq<Seq<char>>,
    names: Seq<Seq<char>>,
    delta: Seq<Seq<char>>,
)
    requires
        unique_symbols(before.symbols()),
        unique_symbols(after.symbols()),
        unique_sites(old_sites),
        unique_sites(sites),
        before.symbols().filter(elsewhere(changed)) == after.symbols().filter(elsewhere(changed)),
        forall|i: int|
            0 <= i < before.symbols().len() && changed.contains(
                (#[trigger] before.symbols()[i]).path@,
            ) ==> names.contains(before.symbols()[i].name@),
        forall|i: int|
            0 <= i < after.symbols().len() && changed.contains(
                (#[trigger] after.symbols()[i]).path@,
            ) ==> names.contains(after.symbols()[i].name@),
        old_sites.filter(graph::site_in(changed, false)) == sites.filter(
            graph::site_in(changed, false),
        ),
        forall|p: Seq<char>| #[trigger]
            delta.contains(p) <==> graph::in_delta(changed, names, sites, p),
        forall|i: int|
            0 <= i < sites.len() && !delta.contains(sites[i].from_path@) ==> same_surroundings(
                before,
                after,
                #[trigger] sites[i],
            ),
    ensures
        reconcile::edges_of(before, old_sites).filter(
            kept(delta, context::qns_of(after.symbols())),
        ) == reconcile::edges_of(after, sites).filter(edge_in(delta, false)),
        reconcile::edges_of(after, sites.filter(graph::site_in(delta, true)))
            == reconcile::edges_of(after, sites).filter(edge_in(delta, true)),
        reconcile::groups_of(before, old_sites).filter(group_in(delta, false))
            == reconcile::groups_of(after, sites).filter(group_in(delta, false)),
        reconcile::groups_of(after, sites.filter(graph::site_in(delta, true)))
            == reconcile::groups_of(after, sites).filter(group_in(delta, true)),
{
    lemma_outside_twice(old_sites, changed, delta);
    lemma_outside_twice(sites, changed, delta);
    assert forall|i: int|
        0 <= i < sites.len() && !delta.contains(sites[i].from_path@) implies resolves_alike(
        before,
        after,
        #[trigger] sites[i],
    ) by {
        lemma_delta_is_wide_enough(before.symbols(), after.symbols(), changed, names, sites, i);
        lemma_verdict_local(before, after, sites[i]);
    }
    lemma_scoped_update_is_full(before, after, old_sites, sites, delta);
    lemma_incremental_is_full(before, after, old_sites, sites, delta);
}

} // verus!
