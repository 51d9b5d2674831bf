//! What the steps of an index run decide, said of the rows that they read.

use vstd::prelude::*;

use crate::boundary;
use crate::boundary::SpanRow;
use crate::churn;
use crate::churn::FileSignal;
use crate::driver;
use crate::driver::{KnownFile, PathAction, Run, RunStep, ScannedFile, Stage};
use crate::extraction::CallSiteView;
use crate::graph;
use crate::graph::StoredEdge;
use crate::identity;
use crate::identity::{SiteIdentity, SiteStep, StoredSite};
use crate::import_laws;
use crate::inheritance_laws;
use crate::maps::ResolutionMaps;
use crate::migration;
use crate::migration::{MigrationMetrics, MigrationView};
use crate::modules;
use crate::modules::ImportRow;
use crate::reconcile::CallSiteRow;
use crate::text;
use crate::type_resolve;
use crate::type_resolve::{StoredRelation, TypeSymbol};

verus! {

// ---------------------------------------------------------------------------
// Neighbours whose lines overlap
// ---------------------------------------------------------------------------

/// The row at `i` and the next one stand in one file, the next one begins before
/// the first has ended, and it is not nested in it: it ends later, or does not
/// begin later.
pub open spec fn overlap_at(rows: Seq<SpanRow>, i: int) -> bool {
    &&& 0 <= i < rows.len() - 1
    &&& rows[i].path@ == rows[i + 1].path@
    &&& rows[i + 1].line_start <= rows[i].line_end
    &&& rows[i + 1].line_end > rows[i].line_end || rows[i + 1].line_start <= rows[i].line_start
}

/// A symbol is marked exactly where it is one of two neighbours that overlap.
#[verifier::rlimit(40)]
pub proof fn lemma_boundaries(rows: Seq<SpanRow>, q: Seq<char>)
    ensures
        boundary::touched(rows).contains(q) <==> exists|i: int| #[trigger]
            overlap_at(rows, i) && (rows[i].qualified_name@ == q || rows[i + 1].qualified_name@
                == q),
    decreases rows.len(),
{
    let all = boundary::touched(rows);
    if rows.len() >= 2 {
        let less = rows.drop_last();
        let n = rows.len() - 2;
        let init = boundary::touched(less);
        lemma_boundaries(less, q);
        assert forall|i: int| 0 <= i < n implies (#[trigger] overlap_at(less, i) <==> overlap_at(
            rows,
            i,
        )) by {
            assert(less[i] == rows[i] && less[i + 1] == rows[i + 1]);
        }
        let a = rows[n];
        let b = rows.last();
        if all.contains(q) {
            let k = choose|k: int| 0 <= k < all.len() && all[k] == q;
            if k < init.len() {
                assert(init[k] == q);
                let i = choose|i: int| #[trigger]
                    overlap_at(less, i) && (less[i].qualified_name@ == q || less[i
                        + 1].qualified_name@ == q);
                assert(overlap_at(rows, i));
            } else {
                assert(overlap_at(rows, n));
            }
        }
        if exists|i: int| #[trigger]
            overlap_at(rows, i) && (rows[i].qualified_name@ == q || rows[i + 1].qualified_name@
                == q) {
            let i = choose|i: int| #[trigger]
                overlap_at(rows, i) && (rows[i].qualified_name@ == q || rows[i
                    + 1].qualified_name@ == q);
            if i < n {
                assert(overlap_at(less, i));
                let k = choose|k: int| 0 <= k < init.len() && init[k] == q;
                assert(all[k] == q);
            } else {
                assert(all[all.len() - 2] == a.qualified_name@ && all[all.len() - 1]
                    == b.qualified_name@);
            }
        }
    } else {
        assert(!all.contains(q));
    }
}

// ---------------------------------------------------------------------------
// Churn
// ---------------------------------------------------------------------------

/// The score of a file is the commit count of its last signal, or zero without
/// one, out of the largest count of all and at least one; without a repository
/// there is no score.
pub proof fn lemma_churn(signals: Seq<FileSignal>, path: Seq<char>)
    ensures
        churn::score_of(signals, false, path) is None,
        churn::score_of(signals, true, path) is Some,
        ({
            let s = churn::score_of(signals, true, path)->Some_0;
            &&& s.out_of >= 1
            &&& forall|i: int|
                0 <= i < signals.len() ==> (#[trigger] signals[i]).commit_count <= s.out_of
            &&& s.out_of == 1 || exists|i: int|
                0 <= i < signals.len() && (#[trigger] signals[i]).commit_count == s.out_of
            &&& s.count <= s.out_of
            &&& (forall|i: int| 0 <= i < signals.len() ==> (#[trigger] signals[i]).path@ != path)
                ==> s.count == 0
            &&& forall|i: int|
                0 <= i < signals.len() && (#[trigger] signals[i]).path@ == path && (forall|j: int|
                    i < j < signals.len() ==> (#[trigger] signals[j]).path@ != path) ==> s.count
                    == signals[i].commit_count
        }),
{
    let s = churn::score_of(signals, true, path)->Some_0;
    lemma_largest(signals);
    let p = churn::at_path(path);
    let own = signals.filter(p);
    if own.len() > 0 {
        assert(own.contains(own.last()));
        inheritance_laws::lemma_filter_iff(signals, p, own.last());
        let k = choose|k: int| 0 <= k < signals.len() && signals[k] == own.last();
        assert(signals[k].path@ == path);
    }
    assert forall|i: int|
        0 <= i < signals.len() && (#[trigger] signals[i]).path@ == path && (forall|j: int|
            i < j < signals.len() ==> (#[trigger] signals[j]).path@ != path) implies s.count
        == signals[i].commit_count by {
        inheritance_laws::lemma_last_filter(signals, p, i);
    }
}

proof fn lemma_largest(signals: Seq<FileSignal>)
    ensures
        churn::largest(signals) >= 1,
        forall|i: int|
            0 <= i < signals.len() ==> (#[trigger] signals[i]).commit_count <= churn::largest(
                signals,
            ),
        churn::largest(signals) == 1 || exists|i: int|
            0 <= i < signals.len() && (#[trigger] signals[i]).commit_count == churn::largest(
                signals,
            ),
    decreases signals.len(),
{
    if signals.len() > 0 {
        let less = signals.drop_last();
        let n = signals.len() - 1;
        lemma_largest(less);
        assert forall|i: int| 0 <= i < signals.len() implies (#[trigger] signals[i]).commit_count
            <= churn::largest(signals) by {
            if i < n {
                assert(less[i] == signals[i]);
            }
        }
        if signals.last().commit_count > churn::largest(less) {
            assert(signals[n].commit_count == churn::largest(signals));
        } else if churn::largest(less) != 1 {
            let i = choose|i: int|
                0 <= i < less.len() && (#[trigger] less[i]).commit_count == churn::largest(less);
            assert(signals[i] == less[i]);
        }
    }
}

// ---------------------------------------------------------------------------
// Type relations across files
// ---------------------------------------------------------------------------

/// The bare name of a target is what stands behind its last dot and before its
/// type arguments, without space around it.
#[verifier::rlimit(40)]
pub proof fn lemma_bare_name(
    a: Seq<char>,
    q: Seq<char>,
    n: Seq<char>,
    b: Seq<char>,
    rest: Seq<char>,
)
    requires
        import_laws::all_space(a),
        import_laws::all_space(b),
        n.len() > 0,
        !text::is_space(n[0]) && !text::is_space(n.last()),
        !n.contains('.') && !n.contains('<'),
        q.len() == 0 || (q.last() == '.' && !text::is_space(q[0]) && !q.contains('<')),
        rest.len() == 0 || rest[0] == '<',
    ensures
        type_resolve::bare_name(a + q + n + b + rest) == n,
{
    reveal_strlit(".");
    let name = q + n;
    let head = a + name + b;
    let all = a + q + n + b + rest;
    assert(all =~= head + rest);
    assert forall|i: int| 0 <= i < head.len() implies head[i] != '<' by {
        if i < a.len() {
            assert(text::is_space(a[i]));
        } else if i < a.len() + q.len() {
            assert(head[i] == q[i - a.len()]);
            assert(q.contains(q[i - a.len()]));
        } else if i < a.len() + q.len() + n.len() {
            assert(head[i] == n[i - a.len() - q.len()]);
            assert(n.contains(n[i - a.len() - q.len()]));
        } else {
            assert(head[i] == b[i - a.len() - q.len() - n.len()]);
            assert(text::is_space(b[i - a.len() - q.len() - n.len()]));
        }
    }
    text::lemma_find_from(all, '<', 0);
    let e = text::find_from(all, '<', 0);
    assert(e == head.len()) by {
        if e < head.len() {
            assert(all[e] == head[e]);
        }
        if e > head.len() {
            assert(all[head.len() as int] == rest[0]);
        }
    }
    assert(all.take(e) =~= head);
    if q.len() > 0 {
        assert(name[0] == q[0]);
    } else {
        assert(name[0] == n[0]);
    }
    assert(name.last() == n.last());
    import_laws::lemma_trimmed(a, name, b);
    let dot = "."@;
    assert forall|j: int| q.len() <= j < name.len() implies !#[trigger] text::stands_at(
        name,
        dot,
        j,
    ) by {
        if text::stands_at(name, dot, j) {
            assert(name.subrange(j, j + 1)[0] == name[j]);
            assert(name[j] == n[j - q.len()]);
            assert(n.contains('.'));
        }
    }
    if q.len() > 0 {
        assert(name.subrange(q.len() - 1, q.len() as int) =~= dot);
        lemma_last_standing(name, dot, name.len() as int, q.len() - 1);
        assert(name.skip(q.len() as int) =~= n);
    } else {
        lemma_last_standing(name, dot, name.len() as int, -1);
        assert(name =~= n);
    }
}

proof fn lemma_last_standing(s: Seq<char>, p: Seq<char>, n: int, i: int)
    requires
        -1 <= i < n <= s.len(),
        i >= 0 ==> text::stands_at(s, p, i),
        forall|j: int| i < j < n ==> !#[trigger] text::stands_at(s, p, j),
    ensures
        i >= 0 ==> text::last_standing(s, p, n) == Some(i),
        i < 0 ==> text::last_standing(s, p, n) is None,
    decreases n,
{
    reveal_with_fuel(text::last_standing, 2);
    if i < n - 1 {
        assert(!text::stands_at(s, p, n - 1));
        if n > 1 {
            lemma_last_standing(s, p, n - 1, i);
        }
    }
}

/// The symbol at `k` bears the bare name of the relation's target and stands in
/// the given language.
pub open spec fn is_target(
    symbols: Seq<TypeSymbol>,
    r: StoredRelation,
    language: Seq<char>,
    k: int,
) -> bool {
    &&& 0 <= k < symbols.len()
    &&& symbols[k].name@ == type_resolve::bare_name(r.target_text@)
    &&& symbols[k].language@ == language
}

/// The symbol at `a` is the first one stored under the relation's source.
pub open spec fn is_source(symbols: Seq<TypeSymbol>, r: StoredRelation, a: int) -> bool {
    &&& 0 <= a < symbols.len()
    &&& symbols[a].qualified_name@ == r.from_symbol@
    &&& forall|k: int|
        0 <= k < a ==> (#[trigger] symbols[k]).qualified_name@ != r.from_symbol@
}

/// The target of a relation is the only symbol of that name in the language of
/// the class that declares it. No such symbol, or more than one, is no target.
#[verifier::rlimit(40)]
pub proof fn lemma_meant(symbols: Seq<TypeSymbol>, r: StoredRelation, a: int)
    requires
        is_source(symbols, r, a),
    ensures
        ({
            let l = symbols[a].language@;
            &&& forall|k: int|
                #[trigger] is_target(symbols, r, l, k) && (forall|j: int| #[trigger]
                    is_target(symbols, r, l, j) ==> j == k) ==> type_resolve::meant(symbols, r)
                    == Some(symbols[k].qualified_name@)
            &&& (forall|k: int| !#[trigger] is_target(symbols, r, l, k)) ==> type_resolve::meant(
                symbols,
                r,
            ) is None
            &&& (exists|j: int, k: int|
                #[trigger] is_target(symbols, r, l, j) && #[trigger] is_target(symbols, r, l, k)
                    && j != k) ==> type_resolve::meant(symbols, r) is None
        }),
{
    let l = symbols[a].language@;
    let from = symbols.filter(type_resolve::called(r.from_symbol@));
    lemma_first_filter(symbols, type_resolve::called(r.from_symbol@), a);
    assert(from[0] == symbols[a]);
    let p = type_resolve::candidate(type_resolve::bare_name(r.target_text@), l);
    let hits = symbols.filter(p);
    assert forall|k: int| #[trigger] is_target(symbols, r, l, k) && (forall|j: int| #[trigger]
        is_target(symbols, r, l, j) ==> j == k) implies type_resolve::meant(symbols, r) == Some(
        symbols[k].qualified_name@,
    ) by {
        assert forall|j: int| 0 <= j < symbols.len() && j != k implies !p(#[trigger] symbols[j]) by {
            if p(symbols[j]) {
                assert(is_target(symbols, r, l, j));
            }
        }
        lemma_one_left(symbols, p, k);
    }
    if forall|k: int| !#[trigger] is_target(symbols, r, l, k) {
        if hits.len() > 0 {
            assert(hits.contains(hits[0]));
            inheritance_laws::lemma_filter_iff(symbols, p, hits[0]);
            let k = choose|k: int| 0 <= k < symbols.len() && symbols[k] == hits[0];
            assert(is_target(symbols, r, l, k));
        }
    }
    if exists|j: int, k: int|
        #[trigger] is_target(symbols, r, l, j) && #[trigger] is_target(symbols, r, l, k) && j
            != k {
        let (j, k) = choose|j: int, k: int|
            #[trigger] is_target(symbols, r, l, j) && #[trigger] is_target(symbols, r, l, k) && j
                != k;
        if j < k {
            lemma_two_left(symbols, p, j, k);
        } else {
            lemma_two_left(symbols, p, k, j);
        }
    }
}

/// A relation from a symbol that is not there has no target.
pub proof fn lemma_meant_without_source(symbols: Seq<TypeSymbol>, r: StoredRelation)
    requires
        forall|k: int|
            0 <= k < symbols.len() ==> (#[trigger] symbols[k]).qualified_name@ != r.from_symbol@,
    ensures
        type_resolve::meant(symbols, r) is None,
{
    let p = type_resolve::called(r.from_symbol@);
    let from = symbols.filter(p);
    if from.len() > 0 {
        assert(from.contains(from[0]));
        inheritance_laws::lemma_filter_iff(symbols, p, from[0]);
        let k = choose|k: int| 0 <= k < symbols.len() && symbols[k] == from[0];
        assert(symbols[k].qualified_name@ != r.from_symbol@);
    }
}

proof fn lemma_one_left<T>(s: Seq<T>, p: spec_fn(T) -> bool, k: int)
    requires
        0 <= k < s.len(),
        p(s[k]),
        forall|j: int| 0 <= j < s.len() && j != k ==> !p(#[trigger] s[j]),
    ensures
        s.filter(p) == seq![s[k]],
    decreases s.len(),
{
    reveal(Seq::filter);
    let less = s.drop_last();
    assert(forall|j: int| 0 <= j < less.len() ==> less[j] == s[j]);
    if k == s.len() - 1 {
        let none = less.filter(p);
        if none.len() > 0 {
            assert(none.contains(none[0]));
            inheritance_laws::lemma_filter_iff(less, p, none[0]);
            let j = choose|j: int| 0 <= j < less.len() && less[j] == none[0];
            assert(!p(s[j]));
        }
        assert(s.filter(p) =~= seq![s[k]]);
    } else {
        assert(!p(s[s.len() - 1]));
        lemma_one_left(less, p, k);
    }
}

proof fn lemma_two_left<T>(s: Seq<T>, p: spec_fn(T) -> bool, j: int, k: int)
    requires
        0 <= j < k < s.len(),
        p(s[j]),
        p(s[k]),
    ensures
        s.filter(p).len() >= 2,
    decreases s.len(),
{
    reveal(Seq::filter);
    let less = s.drop_last();
    if k < s.len() - 1 {
        lemma_two_left(less, p, j, k);
    } else {
        assert(less[j] == s[j]);
        less.lemma_filter_contains(p, j);
    }
}

proof fn lemma_first_filter<T>(s: Seq<T>, p: spec_fn(T) -> bool, i: int)
    requires
        0 <= i < s.len(),
        p(s[i]),
        forall|k: int| 0 <= k < i ==> !p(#[trigger] s[k]),
    ensures
        s.filter(p).len() > 0,
        s.filter(p)[0] == s[i],
    decreases s.len(),
{
    reveal(Seq::filter);
    let less = s.drop_last();
    assert(forall|k: int| 0 <= k < less.len() ==> less[k] == s[k]);
    if i < s.len() - 1 {
        lemma_first_filter(less, p, i);
    } else {
        let none = less.filter(p);
        if none.len() > 0 {
            assert(none.contains(none[0]));
            inheritance_laws::lemma_filter_iff(less, p, none[0]);
            let j = choose|j: int| 0 <= j < less.len() && less[j] == none[0];
            assert(!p(s[j]));
        }
    }
}

/// Every relation without a target whose target is found gets it, as resolved
/// across files.
pub proof fn lemma_resolved_relations(
    symbols: Seq<TypeSymbol>,
    relations: Seq<StoredRelation>,
    n: nat,
    i: int,
) -> (k: int)
    requires
        0 <= i < n <= relations.len(),
        relations[i].to_symbol is None,
        type_resolve::meant(symbols, relations[i]) is Some,
    ensures
        0 <= k < type_resolve::resolved_now(symbols, relations, n).len(),
        ({
            let v = type_resolve::resolved_now(symbols, relations, n)[k];
            &&& v.id == relations[i].id
            &&& Some(v.to_symbol) == type_resolve::meant(symbols, relations[i])
            &&& v.confidence == "resolved"@
            &&& v.resolution_source == "cross_file_unique"@
        }),
    decreases n,
{
    let m = (n - 1) as nat;
    let init = type_resolve::resolved_now(symbols, relations, m);
    if i == m {
        init.len() as int
    } else {
        let k = lemma_resolved_relations(symbols, relations, m, i);
        assert(type_resolve::resolved_now(symbols, relations, n)[k] == init[k]);
        k
    }
}

/// No other row is written: a relation that has a target keeps it.
pub proof fn lemma_resolved_from(
    symbols: Seq<TypeSymbol>,
    relations: Seq<StoredRelation>,
    n: nat,
    k: int,
) -> (i: int)
    requires
        n <= relations.len(),
        0 <= k < type_resolve::resolved_now(symbols, relations, n).len(),
    ensures
        0 <= i < n,
        relations[i].to_symbol is None,
        type_resolve::resolved_now(symbols, relations, n)[k].id == relations[i].id,
        Some(type_resolve::resolved_now(symbols, relations, n)[k].to_symbol)
            == type_resolve::meant(symbols, relations[i]),
    decreases n,
{
    let m = (n - 1) as nat;
    let init = type_resolve::resolved_now(symbols, relations, m);
    if k < init.len() {
        let i = lemma_resolved_from(symbols, relations, m, k);
        assert(type_resolve::resolved_now(symbols, relations, n)[k] == init[k]);
        i
    } else {
        m as int
    }
}

// ---------------------------------------------------------------------------
// Import rows
// ---------------------------------------------------------------------------

/// Every import that names an indexed file gets it.
pub proof fn lemma_import_row(
    maps: ResolutionMaps,
    known: Seq<Seq<char>>,
    rows: Seq<ImportRow>,
    n: nat,
    i: int,
)
    requires
        0 <= i < n <= rows.len(),
        modules::import_target(maps, known, rows[i].from_path@, rows[i].module_name@) is Some,
    ensures
        modules::targets_of(maps, known, rows, n).contains(
            (
                rows[i].id,
                modules::import_target(
                    maps,
                    known,
                    rows[i].from_path@,
                    rows[i].module_name@,
                )->Some_0,
            ),
        ),
    decreases n,
{
    let m = (n - 1) as nat;
    let init = modules::targets_of(maps, known, rows, m);
    let all = modules::targets_of(maps, known, rows, n);
    let t = modules::import_target(maps, known, rows[i].from_path@, rows[i].module_name@)->Some_0;
    if i == m {
        assert(all[all.len() - 1] == (rows[i].id, t));
    } else {
        lemma_import_row(maps, known, rows, m, i);
        let k = choose|k: int| 0 <= k < init.len() && init[k] == (rows[i].id, t);
        assert(all[k] == init[k]);
    }
}

/// No other import gets a target.
pub proof fn lemma_import_row_from(
    maps: ResolutionMaps,
    known: Seq<Seq<char>>,
    rows: Seq<ImportRow>,
    n: nat,
    k: int,
) -> (i: int)
    requires
        n <= rows.len(),
        0 <= k < modules::targets_of(maps, known, rows, n).len(),
    ensures
        0 <= i < n,
        modules::targets_of(maps, known, rows, n)[k].0 == rows[i].id,
        Some(modules::targets_of(maps, known, rows, n)[k].1) == modules::import_target(
            maps,
            known,
            rows[i].from_path@,
            rows[i].module_name@,
        ),
    decreases n,
{
    let m = (n - 1) as nat;
    let init = modules::targets_of(maps, known, rows, m);
    if k < init.len() {
        let i = lemma_import_row_from(maps, known, rows, m, k);
        assert(modules::targets_of(maps, known, rows, n)[k] == init[k]);
        i
    } else {
        m as int
    }
}

// ---------------------------------------------------------------------------
// Scoped updates of the graph
// ---------------------------------------------------------------------------

/// A changed file is built again, and so is every file that calls a changed
/// name; no other is.
pub proof fn lemma_delta(
    seed: Seq<Seq<char>>,
    names: Seq<Seq<char>>,
    calls: Seq<CallSiteRow>,
    path: Seq<char>,
)
    ensures
        seed.contains(path) ==> graph::in_delta(seed, names, calls, path),
        forall|i: int|
            0 <= i < calls.len() && (#[trigger] calls[i]).from_path@ == path && names.contains(
                calls[i].callee@,
            ) ==> graph::in_delta(seed, names, calls, path),
        !seed.contains(path) && (forall|i: int|
            0 <= i < calls.len() && (#[trigger] calls[i]).from_path@ == path ==> !names.contains(
                calls[i].callee@,
            )) ==> !graph::in_delta(seed, names, calls, path),
{
}

/// An edge goes exactly where the file that it comes from is built again, or
/// its target is not there any more.
#[verifier::rlimit(40)]
pub proof fn lemma_stale(
    stored: Seq<StoredEdge>,
    delta: Seq<Seq<char>>,
    symbols: Seq<Seq<char>>,
    n: nat,
    id: i64,
)
    requires
        n <= stored.len(),
    ensures
        graph::stale_ids(stored, delta, symbols, n).contains(id) <==> exists|i: int|
            0 <= i < n && (#[trigger] stored[i]).id == id && ((stored[i].from_path is Some
                && delta.contains(stored[i].from_path->Some_0@)) || !symbols.contains(
                stored[i].to_symbol@,
            )),
    decreases n,
{
    let all = graph::stale_ids(stored, delta, symbols, n);
    if n > 0 {
        let m = (n - 1) as nat;
        let init = graph::stale_ids(stored, delta, symbols, m);
        lemma_stale(stored, delta, symbols, m, id);
        if all.contains(id) {
            let k = choose|k: int| 0 <= k < all.len() && all[k] == id;
            if k < init.len() {
                assert(init[k] == id);
            } else {
                assert(stored[m as int].id == id);
            }
        }
        if exists|i: int|
            0 <= i < n && (#[trigger] stored[i]).id == id && ((stored[i].from_path is Some
                && delta.contains(stored[i].from_path->Some_0@)) || !symbols.contains(
                stored[i].to_symbol@,
            )) {
            let i = choose|i: int|
                0 <= i < n && (#[trigger] stored[i]).id == id && ((stored[i].from_path is Some
                    && delta.contains(stored[i].from_path->Some_0@)) || !symbols.contains(
                    stored[i].to_symbol@,
                ));
            if i < m {
                let k = choose|k: int| 0 <= k < init.len() && init[k] == id;
                assert(all[k] == id);
            } else {
                assert(all[all.len() - 1] == id);
            }
        }
    } else {
        assert(!all.contains(id));
    }
}

/// The sites that are resolved again are those of the files that are built
/// again.
pub proof fn lemma_resolved_again(sites: Seq<CallSiteRow>, delta: Seq<Seq<char>>, i: int)
    requires
        0 <= i < sites.len(),
    ensures
        sites.filter(graph::site_in(delta, true)).contains(sites[i]) <==> delta.contains(
            sites[i].from_path@,
        ),
{
    assert(sites.contains(sites[i]));
    inheritance_laws::lemma_filter_iff(sites, graph::site_in(delta, true), sites[i]);
}

/// A scoped update is made of at most fifty files; beyond that the reason says
/// how many there were.
pub proof fn lemma_delta_limit(n: nat)
    ensures
        graph::MAX_INCREMENTAL_DELTA_PATHS == 50,
        graph::fallback_reason(n) == "delta_paths.len()="@ + text::decimal(n) + " > 50"@,
{
}

// ---------------------------------------------------------------------------
// The identity of call sites
// ---------------------------------------------------------------------------

/// Two spans are both known, and equal.
pub open spec fn same_span(
    a: Option<i64>,
    b: Option<i64>,
    c: Option<i64>,
    d: Option<i64>,
) -> bool {
    a is Some && b is Some && a == c && b == d
}

/// A site that was read is the stored one exactly where they have the same
/// caller, kind and version, and the same span: relative to the caller from
/// version three on, and absolute before. A site without a span is never the
/// same.
pub open spec fn is_same_site(s: StoredSite, v: CallSiteView) -> bool {
    &&& s.enclosing_qn@ == v.enclosing_qn
    &&& s.edge_kind@ == v.edge_kind
    &&& s.identity_version == v.identity_version
    &&& if v.identity_version >= 3 {
        same_span(s.callee_start_rel, s.callee_end_rel, v.callee_start_rel, v.callee_end_rel)
    } else {
        same_span(s.callee_start_byte, s.callee_end_byte, v.callee_start_byte, v.callee_end_byte)
    }
}

/// The identities of the two agree exactly there.
pub proof fn lemma_site_identity(s: StoredSite, v: CallSiteView)
    ensures
        identity::same_identity(identity::stored_identity(s), identity::identity_of(v))
            <==> is_same_site(s, v),
{
}

proof fn lemma_match_from(
    stored: Seq<SiteIdentity>,
    key: SiteIdentity,
    from: int,
    j: int,
)
    requires
        0 <= from <= j <= stored.len(),
        j < stored.len() ==> identity::same_identity(stored[j], key),
        forall|k: int| from <= k < j ==> !#[trigger] identity::same_identity(stored[k], key),
    ensures
        j < stored.len() ==> identity::match_from(stored, key, from) == Some(j),
        j == stored.len() ==> identity::match_from(stored, key, from) is None,
    decreases stored.len() - from,
{
    if from < j {
        assert(!identity::same_identity(stored[from], key));
        lemma_match_from(stored, key, from + 1, j);
    }
}

/// A site that was read updates the first stored site that is the same, and is
/// inserted where there is none.
#[verifier::rlimit(40)]
pub proof fn lemma_site_step(
    stored: Seq<StoredSite>,
    fresh: Seq<crate::extraction::CallSiteData>,
    i: int,
)
    requires
        0 <= i < fresh.len() <= usize::MAX,
    ensures
        forall|j: int|
            0 <= j < stored.len() && is_same_site(#[trigger] stored[j], fresh[i]@) && (forall|
                k: int,
            |
                0 <= k < j ==> !is_same_site(#[trigger] stored[k], fresh[i]@))
                ==> identity::step_for(stored, identity::identities(fresh), i) == (
            SiteStep::Update { id: stored[j].id, fresh: i as usize }),
        (forall|k: int| 0 <= k < stored.len() ==> !is_same_site(#[trigger] stored[k], fresh[i]@))
            ==> identity::step_for(stored, identity::identities(fresh), i) == (SiteStep::Insert {
            fresh: i as usize,
        }),
{
    let ids = identity::stored_identities(stored);
    let key = identity::identities(fresh)[i];
    assert(key == identity::identity_of(fresh[i]@));
    assert forall|k: int| 0 <= k < stored.len() implies (#[trigger] identity::same_identity(
        ids[k],
        key,
    ) <==> is_same_site(stored[k], fresh[i]@)) by {
        lemma_site_identity(stored[k], fresh[i]@);
    }
    assert forall|j: int|
        0 <= j < stored.len() && is_same_site(#[trigger] stored[j], fresh[i]@) && (forall|k: int|
            0 <= k < j ==> !is_same_site(#[trigger] stored[k], fresh[i]@)) implies identity::step_for(
        stored,
        identity::identities(fresh),
        i,
    ) == (SiteStep::Update { id: stored[j].id, fresh: i as usize }) by {
        assert(identity::same_identity(ids[j], key));
        assert forall|k: int| 0 <= k < j implies !#[trigger] identity::same_identity(
            ids[k],
            key,
        ) by {
            assert(!is_same_site(stored[k], fresh[i]@));
        }
        lemma_match_from(ids, key, 0, j);
    }
    if forall|k: int| 0 <= k < stored.len() ==> !is_same_site(#[trigger] stored[k], fresh[i]@) {
        assert forall|k: int| 0 <= k < ids.len() implies !#[trigger] identity::same_identity(
            ids[k],
            key,
        ) by {
            assert(!is_same_site(stored[k], fresh[i]@));
        }
        lemma_match_from(ids, key, 0, ids.len() as int);
    }
}

/// A stored site that no site that was read is the same as goes.
pub proof fn lemma_site_gone(
    stored: Seq<StoredSite>,
    fresh: Seq<crate::extraction::CallSiteData>,
    n: nat,
    j: int,
)
    requires
        0 <= j < n <= stored.len(),
        forall|i: int| 0 <= i < fresh.len() ==> !is_same_site(stored[j], (#[trigger] fresh[i])@),
    ensures
        identity::gone(stored, identity::identities(fresh), n).contains(stored[j].id),
    decreases n,
{
    let ids = identity::stored_identities(stored);
    let keys = identity::identities(fresh);
    let m = (n - 1) as nat;
    let init = identity::gone(stored, keys, m);
    let all = identity::gone(stored, keys, n);
    if j == m {
        if identity::survives(ids, keys, j) {
            let i = choose|i: int|
                0 <= i < keys.len() && #[trigger] identity::match_from(ids, keys[i], 0) == Some(j);
            lemma_match_is_same(ids, keys[i], 0);
            assert(keys[i] == identity::identity_of(fresh[i]@));
            lemma_site_identity(stored[j], fresh[i]@);
            assert(!is_same_site(stored[j], fresh[i]@));
        }
        assert(all[all.len() - 1] == stored[j].id);
    } else {
        lemma_site_gone(stored, fresh, m, j);
        let k = choose|k: int| 0 <= k < init.len() && init[k] == stored[j].id;
        assert(all[k] == init[k]);
    }
}

proof fn lemma_match_is_same(stored: Seq<SiteIdentity>, key: SiteIdentity, from: int)
    requires
        0 <= from,
    ensures
        identity::match_from(stored, key, from) matches Some(j) ==> from <= j < stored.len()
            && identity::same_identity(stored[j], key),
    decreases stored.len() - from,
{
    if from < stored.len() && !identity::same_identity(stored[from], key) {
        lemma_match_is_same(stored, key, from + 1);
    }
}

/// Of sites that are the same, the first one is kept, and none of the others.
pub proof fn lemma_first_sites(v: Seq<SiteIdentity>, n: nat, i: int)
    requires
        0 <= i < n <= v.len(),
    ensures
        identity::first_sites(v, n).contains(i) <==> forall|j: int|
            0 <= j < i ==> !((#[trigger] v[j]).span is Some && v[j] == v[i]),
    decreases n,
{
    let m = n - 1;
    let init = identity::first_sites(v, m as nat);
    let all = identity::first_sites(v, n);
    lemma_sites_below(v, m as nat);
    if i == m {
        if forall|j: int| 0 <= j < i ==> !((#[trigger] v[j]).span is Some && v[j] == v[i]) {
            if identity::repeats(v, i) {
                let j = choose|j: int|
                    0 <= j < i && #[trigger] identity::same_identity(v[j], v[i]);
                assert(!(v[j].span is Some && v[j] == v[i]));
            }
            assert(all[all.len() - 1] == i);
        } else {
            let j = choose|j: int|
                0 <= j < i && !(!((#[trigger] v[j]).span is Some && v[j] == v[i]));
            assert(identity::same_identity(v[j], v[i]));
            assert(identity::repeats(v, i));
        }
    } else {
        lemma_first_sites(v, m as nat, i);
        if init.contains(i) {
            let k = choose|k: int| 0 <= k < init.len() && init[k] == i;
            assert(all[k] == i);
        }
        if all.contains(i) {
            let k = choose|k: int| 0 <= k < all.len() && all[k] == i;
            assert(init[k] == i);
        }
    }
}

proof fn lemma_sites_below(v: Seq<SiteIdentity>, n: nat)
    requires
        n <= v.len(),
    ensures
        forall|k: int|
            0 <= k < identity::first_sites(v, n).len() ==> 0 <= #[trigger] identity::first_sites(
                v,
                n,
            )[k] < n,
    decreases n,
{
    if n > 0 {
        lemma_sites_below(v, (n - 1) as nat);
        let init = identity::first_sites(v, (n - 1) as nat);
        assert forall|k: int| 0 <= k < identity::first_sites(v, n).len() implies 0
            <= #[trigger] identity::first_sites(v, n)[k] < n by {
            if k < init.len() {
                assert(identity::first_sites(v, n)[k] == init[k]);
            }
        }
    }
}

// ---------------------------------------------------------------------------
// The record of the identity baseline
// ---------------------------------------------------------------------------

/// A site needs the baseline where its version is below two, or where an end of
/// its span is not known.
pub proof fn lemma_outdated(s: StoredSite)
    ensures
        migration::is_outdated(s) <==> (s.identity_version < 2 || s.callee_start_byte is None
            || s.callee_end_byte is None),
{
}

/// What is noted of a run. Its start is set when it begins to run and kept by
/// everything else; its end is set by success and its failure by failure alone;
/// numbers are kept until new ones come.
pub proof fn lemma_noted(
    prior: Option<MigrationView>,
    status: Seq<char>,
    reason: Option<Seq<char>>,
    metrics: Option<MigrationMetrics>,
    now: i64,
)
    ensures
        ({
            let r = migration::noted(prior, status, reason, metrics, now);
            &&& r.target_version == 2
            &&& r.status == status
            &&& r.failure_reason == reason
            &&& status == "running"@ ==> r.started_at == Some(now)
            &&& status != "running"@ && prior is Some ==> r.started_at == prior->Some_0.started_at
            &&& status != "running"@ && prior is None ==> r.started_at is None
            &&& r.completed_at == (if status == "baseline_ready"@ {
                Some(now)
            } else {
                None
            })
            &&& r.failed_at == (if status == "failed"@ {
                Some(now)
            } else {
                None
            })
            &&& metrics matches Some(m) ==> r.duration_ms == Some(m.duration_ms) && r.rows_rebuilt
                == Some(m.rows_rebuilt) && r.busy_retries == Some(m.busy_retries)
            &&& metrics is None && prior is Some ==> r.duration_ms == prior->Some_0.duration_ms
                && r.rows_rebuilt == prior->Some_0.rows_rebuilt && r.busy_retries
                == prior->Some_0.busy_retries && r.graph_generation
                == prior->Some_0.graph_generation
            &&& metrics is None && prior is None ==> r.duration_ms is None && r.rows_rebuilt is None
                && r.busy_retries is None && r.graph_generation is None
            &&& metrics matches Some(m) ==> (m.graph_generation is Some ==> r.graph_generation
                == m.graph_generation)
            &&& metrics matches Some(m) ==> (m.graph_generation is None && prior is Some
                ==> r.graph_generation == prior->Some_0.graph_generation)
        }),
{
}

// ---------------------------------------------------------------------------
// Which files are read again
// ---------------------------------------------------------------------------

/// The known file at `j` is the last one with that path.
pub open spec fn is_known_last(known: Seq<KnownFile>, j: int, path: Seq<char>) -> bool {
    &&& 0 <= j < known.len()
    &&& known[j].path@ == path
    &&& forall|k: int| j < k < known.len() ==> (#[trigger] known[k]).path@ != path
}

/// A scanned file has changed where its hash is known and is not that of the
/// last row with its path; a new file has changed, one that could not be read
/// has not.
pub proof fn lemma_has_changed(known: Seq<KnownFile>, s: ScannedFile)
    ensures
        s.hash is None ==> !driver::has_changed(known, s),
        forall|j: int| #[trigger]
            is_known_last(known, j, s.path@) && s.hash is Some ==> (driver::has_changed(known, s)
                <==> known[j].hash@ != s.hash->Some_0@),
        s.hash is Some && (forall|k: int|
            0 <= k < known.len() ==> (#[trigger] known[k]).path@ != s.path@)
            ==> driver::has_changed(known, s),
{
    let p = driver::known_as(s.path@);
    let hits = known.filter(p);
    assert forall|j: int| #[trigger] is_known_last(known, j, s.path@) && s.hash is Some implies (
    driver::has_changed(known, s) <==> known[j].hash@ != s.hash->Some_0@) by {
        inheritance_laws::lemma_last_filter(known, p, j);
    }
    if forall|k: int| 0 <= k < known.len() ==> (#[trigger] known[k]).path@ != s.path@ {
        if hits.len() > 0 {
            assert(hits.contains(hits[0]));
            inheritance_laws::lemma_filter_iff(known, p, hits[0]);
            let k = choose|k: int| 0 <= k < known.len() && known[k] == hits[0];
            assert(known[k].path@ != s.path@);
        }
    }
}

/// The files that are read are the scanned ones that have changed.
pub proof fn lemma_changed(known: Seq<KnownFile>, scanned: Seq<ScannedFile>, n: nat, i: int)
    requires
        0 <= i < n <= scanned.len(),
    ensures
        driver::changed_at(known, scanned, n).contains(i) <==> driver::has_changed(
            known,
            scanned[i],
        ),
    decreases n,
{
    let m = n - 1;
    let init = driver::changed_at(known, scanned, m as nat);
    let all = driver::changed_at(known, scanned, n);
    lemma_changed_below(known, scanned, m as nat);
    if i == m {
        if driver::has_changed(known, scanned[i]) {
            assert(all[all.len() - 1] == i);
        }
    } else {
        lemma_changed(known, scanned, m as nat, i);
        if init.contains(i) {
            let k = choose|k: int| 0 <= k < init.len() && init[k] == i;
            assert(all[k] == i);
        }
        if all.contains(i) {
            let k = choose|k: int| 0 <= k < all.len() && all[k] == i;
            assert(init[k] == i);
        }
    }
}

proof fn lemma_changed_below(known: Seq<KnownFile>, scanned: Seq<ScannedFile>, n: nat)
    requires
        n <= scanned.len(),
    ensures
        forall|k: int|
            0 <= k < driver::changed_at(known, scanned, n).len() ==> 0
                <= #[trigger] driver::changed_at(known, scanned, n)[k] < n,
    decreases n,
{
    if n > 0 {
        lemma_changed_below(known, scanned, (n - 1) as nat);
        let init = driver::changed_at(known, scanned, (n - 1) as nat);
        assert forall|k: int| 0 <= k < driver::changed_at(known, scanned, n).len() implies 0
            <= #[trigger] driver::changed_at(known, scanned, n)[k] < n by {
            if k < init.len() {
                assert(driver::changed_at(known, scanned, n)[k] == init[k]);
            }
        }
    }
}

/// The files that are dropped are the known ones that the walk did not find.
pub proof fn lemma_missing(known: Seq<KnownFile>, scanned: Seq<ScannedFile>, n: nat, i: int)
    requires
        0 <= i < n <= known.len(),
    ensures
        driver::missing_at(known, scanned, n).contains(i) <==> forall|k: int|
            0 <= k < scanned.len() ==> (#[trigger] scanned[k]).path@ != known[i].path@,
    decreases n,
{
    let m = n - 1;
    let init = driver::missing_at(known, scanned, m as nat);
    let all = driver::missing_at(known, scanned, n);
    let paths = driver::scanned_paths(scanned);
    lemma_missing_below(known, scanned, m as nat);
    if i == m {
        if paths.contains(known[i].path@) {
            let k = choose|k: int| 0 <= k < paths.len() && paths[k] == known[i].path@;
            assert(scanned[k].path@ == known[i].path@);
        } else {
            assert forall|k: int| 0 <= k < scanned.len() implies (#[trigger] scanned[k]).path@
                != known[i].path@ by {
                assert(paths[k] == scanned[k].path@);
            }
            assert(all[all.len() - 1] == i);
        }
    } else {
        lemma_missing(known, scanned, m as nat, i);
        if init.contains(i) {
            let k = choose|k: int| 0 <= k < init.len() && init[k] == i;
            assert(all[k] == i);
        }
        if all.contains(i) {
            let k = choose|k: int| 0 <= k < all.len() && all[k] == i;
            assert(init[k] == i);
        }
    }
}

proof fn lemma_missing_below(known: Seq<KnownFile>, scanned: Seq<ScannedFile>, n: nat)
    requires
        n <= known.len(),
    ensures
        forall|k: int|
            0 <= k < driver::missing_at(known, scanned, n).len() ==> 0
                <= #[trigger] driver::missing_at(known, scanned, n)[k] < n,
    decreases n,
{
    if n > 0 {
        lemma_missing_below(known, scanned, (n - 1) as nat);
        let init = driver::missing_at(known, scanned, (n - 1) as nat);
        assert forall|k: int| 0 <= k < driver::missing_at(known, scanned, n).len() implies 0
            <= #[trigger] driver::missing_at(known, scanned, n)[k] < n by {
            if k < init.len() {
                assert(driver::missing_at(known, scanned, n)[k] == init[k]);
            }
        }
    }
}

/// A single path is deleted exactly where it was known and is gone, and read
/// again exactly where it is there, of a known kind, readable and different.
pub proof fn lemma_path_action(
    stored: Option<Seq<char>>,
    on_disk: bool,
    recognized: bool,
    hash: Option<Seq<char>>,
)
    ensures
        driver::path_action(stored, on_disk, recognized, hash) == PathAction::Delete <==> (!on_disk
            && stored is Some),
        driver::path_action(stored, on_disk, recognized, hash) == PathAction::Reindex <==> (on_disk
            && recognized && hash is Some && stored != hash),
{
}

/// A batch takes up to a thousand files, and a run reads them in order.
pub proof fn lemma_batches(r: Run, noop: bool)
    requires
        r.stage == Stage::Reading,
        r.next < r.total,
    ensures
        driver::stepped(r, true, noop).1 == RunStep::Rollback,
        driver::stepped(r, false, noop).1 matches RunStep::Batch { from, to } && from == r.next
            && to - from <= 1000 && from < to <= r.total && (to < r.total ==> to - from == 1000)
            && driver::stepped(r, false, noop).0.next == to,
{
}

/// A stored site that a site that was read is the same as, and that no stored
/// site before it is, stays.
pub proof fn lemma_site_stays(
    stored: Seq<StoredSite>,
    fresh: Seq<crate::extraction::CallSiteData>,
    n: nat,
    i: int,
    j: int,
)
    requires
        n <= stored.len(),
        0 <= i < fresh.len(),
        0 <= j < stored.len(),
        is_same_site(stored[j], fresh[i]@),
        forall|k: int| 0 <= k < j ==> !is_same_site(#[trigger] stored[k], fresh[i]@),
        forall|k: int|
            0 <= k < stored.len() && k != j ==> (#[trigger] stored[k]).id != stored[j].id,
    ensures
        !identity::gone(stored, identity::identities(fresh), n).contains(stored[j].id),
    decreases n,
{
    let ids = identity::stored_identities(stored);
    let keys = identity::identities(fresh);
    let all = identity::gone(stored, keys, n);
    if n > 0 {
        let m = (n - 1) as nat;
        let init = identity::gone(stored, keys, m);
        lemma_site_stays(stored, fresh, m, i, j);
        if m == j {
            assert(keys[i] == identity::identity_of(fresh[i]@));
            lemma_site_identity(stored[j], fresh[i]@);
            assert forall|k: int| 0 <= k < j implies !#[trigger] identity::same_identity(
                ids[k],
                keys[i],
            ) by {
                assert(!is_same_site(stored[k], fresh[i]@));
                lemma_site_identity(stored[k], fresh[i]@);
            }
            lemma_match_from(ids, keys[i], 0, j);
            assert(identity::survives(ids, keys, j));
        }
        if all.contains(stored[j].id) {
            let k = choose|k: int| 0 <= k < all.len() && all[k] == stored[j].id;
            if k < init.len() {
                assert(init[k] == stored[j].id);
            } else {
                assert(stored[m as int].id != stored[j].id);
            }
        }
    } else {
        assert(!all.contains(stored[j].id));
    }
}

/// A run begins with a transaction that clears everything unless it is
/// incremental; once all files are read an incremental run removes what is gone
/// and any other builds the graph; a run that had nothing to do makes no new
/// generation, and one that built the graph does.
pub proof fn lemma_run_stages(r: Run, cancelled: bool, noop: bool)
    ensures
        r.stage == Stage::Scanned && cancelled ==> driver::stepped(r, cancelled, noop).1
            == RunStep::Stop,
        r.stage == Stage::Scanned && !cancelled ==> driver::stepped(r, cancelled, noop).1 == (
        RunStep::Begin { clear: !r.incremental }) && driver::stepped(r, cancelled, noop).0.stage
            == Stage::Reading,
        r.stage == Stage::Reading && r.next >= r.total && r.incremental ==> driver::stepped(
            r,
            cancelled,
            noop,
        ).1 == RunStep::Sweep,
        r.stage == Stage::Reading && r.next >= r.total && !r.incremental ==> driver::stepped(
            r,
            cancelled,
            noop,
        ).1 == RunStep::BuildGraph,
        r.stage == Stage::Sweeping && noop ==> driver::stepped(r, cancelled, noop).1 == (
        RunStep::Commit { new_generation: false }),
        r.stage == Stage::Sweeping && !noop ==> driver::stepped(r, cancelled, noop).1
            == RunStep::BuildGraph,
        r.stage == Stage::Building ==> driver::stepped(r, cancelled, noop).1 == (RunStep::Commit {
            new_generation: true,
        }),
        r.stage == Stage::Done ==> driver::stepped(r, cancelled, noop).1 == RunStep::Stop,
{
}

/// The names that changed are those that there were and those that come, each
/// once.
pub proof fn lemma_with_names(had: Seq<Seq<char>>, more: Seq<Seq<char>>, n: Seq<char>)
    ensures
        driver::with_names(had, more).contains(n) <==> had.contains(n) || more.contains(n),
    decreases more.len(),
{
    let all = driver::with_names(had, more);
    if more.len() > 0 {
        let less = more.drop_last();
        let init = driver::with_names(had, less);
        lemma_with_names(had, less, n);
        if all.contains(n) {
            let k = choose|k: int| 0 <= k < all.len() && all[k] == n;
            if k < init.len() {
                assert(init[k] == n);
                if less.contains(n) {
                    let j = choose|j: int| 0 <= j < less.len() && less[j] == n;
                    assert(more[j] == n);
                }
            } else {
                assert(more[more.len() - 1] == n);
            }
        }
        if init.contains(n) {
            let k = choose|k: int| 0 <= k < init.len() && init[k] == n;
            assert(all[k] == n);
        }
        if more.contains(n) && !init.contains(n) {
            let j = choose|j: int| 0 <= j < more.len() && more[j] == n;
            if j < less.len() {
                assert(less[j] == n);
            }
            assert(all[all.len() - 1] == n);
        }
    } else {
        assert(!more.contains(n));
    }
}

/// Texts are ordered like words in a dictionary: by the first character in which
/// they differ, and a text before those that it begins.
pub proof fn lemma_before(a: Seq<char>, b: Seq<char>, k: int)
    requires
        0 <= k <= a.len(),
        k <= b.len(),
        forall|i: int| 0 <= i < k ==> #[trigger] a[i] == b[i],
    ensures
        k == a.len() ==> (text::before(a, b) <==> b.len() > k),
        k < a.len() && k == b.len() ==> !text::before(a, b),
        k < a.len() && k < b.len() && a[k] != b[k] ==> (text::before(a, b) <==> a[k] < b[k]),
    decreases k,
{
    if k > 0 {
        assert(a[0] == b[0]);
        let x = a.drop_first();
        let y = b.drop_first();
        assert forall|i: int| 0 <= i < k - 1 implies #[trigger] x[i] == y[i] by {
            assert(a[i + 1] == b[i + 1]);
        }
        lemma_before(x, y, k - 1);
    }
}

/// The tables are built anew for exactly three manifests, and only at the
/// project's root.
pub proof fn lemma_root_manifests(rel: Seq<char>)
    ensures
        crate::cache::is_root_manifest(rel) <==> (rel == "Cargo.toml"@ || rel == "Cargo.lock"@
            || rel == "composer.json"@),
        rel.contains('/') ==> !crate::cache::is_root_manifest(rel),
        crate::cache::RESOLUTION_MAPS_TTL_MS == 60 * 1000,
{
    reveal_strlit("Cargo.toml");
    reveal_strlit("Cargo.lock");
    reveal_strlit("composer.json");
    assert(!"Cargo.toml"@.contains('/') && !"Cargo.lock"@.contains('/')
        && !"composer.json"@.contains('/'));
}

} // verus!
