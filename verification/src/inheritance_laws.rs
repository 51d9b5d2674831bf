//! Which declaration a class inherits, and who its ancestors are.

use vstd::prelude::*;

use crate::context;
use crate::context::{FileRow, ResolutionCtx, SymbolRow, TypeRelationRow};
use crate::reconcile;

verus! {

/// The row is a symbol of that name that the class declares.
pub open spec fn declares(r: SymbolRow, callee: Seq<char>, cls: Seq<char>) -> bool {
    r.name@ == callee && r.class_context is Some && r.class_context->Some_0@ == cls
}

/// Some class of the level declares the row.
pub open spec fn declared_by(r: SymbolRow, callee: Seq<char>, level: Seq<Seq<char>>) -> bool {
    exists|j: int| 0 <= j < level.len() && declares(r, callee, #[trigger] level[j])
}

/// The two rows stand for one declaration.
pub open spec fn is_same(a: SymbolRow, b: SymbolRow) -> bool {
    a.qualified_name@ == b.qualified_name@ && a.path@ == b.path@ && a.language@ == b.language@
}

/// No class of the level declares anything of that name.
pub open spec fn is_silent(
    symbols: Seq<SymbolRow>,
    callee: Seq<char>,
    level: Seq<Seq<char>>,
) -> bool {
    forall|k: int| 0 <= k < symbols.len() ==> !declared_by(#[trigger] symbols[k], callee, level)
}

/// The row at `k` is declared by the level, and nothing else of that name is.
pub open spec fn is_only(
    symbols: Seq<SymbolRow>,
    callee: Seq<char>,
    level: Seq<Seq<char>>,
    k: int,
) -> bool {
    &&& 0 <= k < symbols.len()
    &&& declared_by(symbols[k], callee, level)
    &&& forall|m: int|
        0 <= m < symbols.len() && declared_by(#[trigger] symbols[m], callee, level) ==> is_same(
            symbols[m],
            symbols[k],
        )
}

/// The level declares two different things of that name.
pub open spec fn is_torn(
    symbols: Seq<SymbolRow>,
    callee: Seq<char>,
    level: Seq<Seq<char>>,
) -> bool {
    exists|a: int, b: int|
        0 <= a < symbols.len() && 0 <= b < symbols.len() && declared_by(
            #[trigger] symbols[a],
            callee,
            level,
        ) && declared_by(#[trigger] symbols[b], callee, level) && !is_same(symbols[a], symbols[b])
}

pub proof fn lemma_filter_iff<T>(s: Seq<T>, p: spec_fn(T) -> bool, x: T)
    ensures
        s.filter(p).contains(x) <==> s.contains(x) && p(x),
{
    let f = s.filter(p);
    if f.contains(x) {
        let i = choose|i: int| 0 <= i < f.len() && f[i] == x;
        s.lemma_filter_pred(p, i);
        s.lemma_filter_contains_rev(p, x);
    }
    if s.contains(x) && p(x) {
        let i = choose|i: int| 0 <= i < s.len() && s[i] == x;
        s.lemma_filter_contains(p, i);
    }
}

#[verifier::rlimit(40)]
proof fn lemma_declared_at(
    symbols: Seq<SymbolRow>,
    callee: Seq<char>,
    level: Seq<Seq<char>>,
    r: SymbolRow,
)
    ensures
        reconcile::declared_at(symbols, callee, level).contains(r) <==> symbols.contains(r)
            && declared_by(r, callee, level),
    decreases level.len(),
{
    let all = reconcile::declared_at(symbols, callee, level);
    if level.len() > 0 {
        let less = level.drop_last();
        let init = reconcile::declared_at(symbols, callee, less);
        let own = symbols.filter(context::member(callee, level.last()));
        lemma_declared_at(symbols, callee, less, r);
        lemma_filter_iff(symbols, context::member(callee, level.last()), r);
        if all.contains(r) {
            let k = choose|k: int| 0 <= k < all.len() && all[k] == r;
            if k < init.len() {
                assert(init[k] == r);
                let j = choose|j: int|
                    0 <= j < less.len() && declares(r, callee, #[trigger] less[j]);
                assert(declares(r, callee, level[j]));
            } else {
                assert(own[k - init.len()] == r);
                assert(declares(r, callee, level[level.len() - 1]));
            }
        }
        if symbols.contains(r) && declared_by(r, callee, level) {
            let j = choose|j: int|
                0 <= j < level.len() && declares(r, callee, #[trigger] level[j]);
            if j < less.len() {
                assert(declares(r, callee, less[j]));
                let k = choose|k: int| 0 <= k < init.len() && init[k] == r;
                assert(all[k] == r);
            } else {
                let k = choose|k: int| 0 <= k < own.len() && own[k] == r;
                assert(all[init.len() + k] == r);
            }
        }
    } else {
        assert(!all.contains(r));
    }
}

/// What is left of some rows once repeated ones are dropped: rows of them, each
/// of them represented, and no two the same.
#[verifier::rlimit(40)]
proof fn lemma_distinct(rows: Seq<SymbolRow>)
    ensures
        forall|x: SymbolRow| #[trigger]
            reconcile::distinct(rows).contains(x) ==> rows.contains(x),
        forall|k: int|
            0 <= k < rows.len() ==> exists|m: int|
                0 <= m < reconcile::distinct(rows).len() && is_same(
                    #[trigger] reconcile::distinct(rows)[m],
                    #[trigger] rows[k],
                ),
        forall|a: int, b: int|
            0 <= a < b < reconcile::distinct(rows).len() ==> !is_same(
                #[trigger] reconcile::distinct(rows)[a],
                #[trigger] reconcile::distinct(rows)[b],
            ),
    decreases rows.len(),
{
    if rows.len() > 0 {
        let less = rows.drop_last();
        let init = reconcile::distinct(less);
        let all = reconcile::distinct(rows);
        lemma_distinct(less);
        assert forall|x: SymbolRow| #[trigger] all.contains(x) implies rows.contains(x) by {
            let k = choose|k: int| 0 <= k < all.len() && all[k] == x;
            if k < init.len() {
                assert(init[k] == x);
                assert(init.contains(x));
                let j = choose|j: int| 0 <= j < less.len() && less[j] == x;
                assert(rows[j] == x);
            } else {
                assert(rows[rows.len() - 1] == x);
            }
        }
        assert forall|k: int| 0 <= k < rows.len() implies exists|m: int|
            0 <= m < all.len() && is_same(#[trigger] all[m], #[trigger] rows[k]) by {
            if k < less.len() {
                assert(less[k] == rows[k]);
                let m = choose|m: int|
                    0 <= m < init.len() && is_same(#[trigger] init[m], less[k]);
                assert(all[m] == init[m]);
            } else if exists|m: int|
                0 <= m < init.len() && reconcile::same_candidate(#[trigger] init[m], rows.last()) {
                let m = choose|m: int|
                    0 <= m < init.len() && reconcile::same_candidate(
                        #[trigger] init[m],
                        rows.last(),
                    );
                assert(is_same(all[m], rows[k]));
            } else {
                assert(is_same(all[all.len() - 1], rows[k]));
            }
        }
        assert forall|a: int, b: int| 0 <= a < b < all.len() implies !is_same(
            #[trigger] all[a],
            #[trigger] all[b],
        ) by {
            if b < init.len() {
                assert(init[a] == all[a] && init[b] == all[b]);
            } else {
                assert(!reconcile::same_candidate(init[a], rows.last()));
            }
        }
    }
}

spec fn is_row(
    symbols: Seq<SymbolRow>,
    callee: Seq<char>,
    level: Seq<Seq<char>>,
    r: SymbolRow,
) -> bool {
    exists|k: int|
        0 <= k < symbols.len() && #[trigger] symbols[k] == r && declared_by(
            symbols[k],
            callee,
            level,
        )
}

spec fn is_covered(hits: Seq<SymbolRow>, r: SymbolRow) -> bool {
    exists|m: int| 0 <= m < hits.len() && is_same(#[trigger] hits[m], r)
}

/// The hits are rows that the level declares, all of them and no two the same.
spec fn are_hits(
    symbols: Seq<SymbolRow>,
    callee: Seq<char>,
    level: Seq<Seq<char>>,
    hits: Seq<SymbolRow>,
) -> bool {
    &&& forall|m: int|
        0 <= m < hits.len() ==> is_row(symbols, callee, level, #[trigger] hits[m])
    &&& forall|k: int|
        0 <= k < symbols.len() && declared_by(#[trigger] symbols[k], callee, level)
            ==> is_covered(hits, symbols[k])
    &&& forall|a: int, b: int|
        0 <= a < b < hits.len() ==> !is_same(#[trigger] hits[a], #[trigger] hits[b])
}

proof fn lemma_are_hits(symbols: Seq<SymbolRow>, callee: Seq<char>, level: Seq<Seq<char>>)
    ensures
        are_hits(
            symbols,
            callee,
            level,
            reconcile::distinct(reconcile::declared_at(symbols, callee, level)),
        ),
{
    let rows = reconcile::declared_at(symbols, callee, level);
    let hits = reconcile::distinct(rows);
    lemma_distinct(rows);
    assert forall|m: int| 0 <= m < hits.len() implies is_row(
        symbols,
        callee,
        level,
        #[trigger] hits[m],
    ) by {
        assert(hits.contains(hits[m]));
        lemma_declared_at(symbols, callee, level, hits[m]);
        let k = choose|k: int| 0 <= k < symbols.len() && symbols[k] == hits[m];
        assert(symbols[k] == hits[m]);
    }
    assert forall|k: int|
        0 <= k < symbols.len() && declared_by(#[trigger] symbols[k], callee, level) implies is_covered(
        hits,
        symbols[k],
    ) by {
        assert(symbols.contains(symbols[k]));
        lemma_declared_at(symbols, callee, level, symbols[k]);
        let j = choose|j: int| 0 <= j < rows.len() && rows[j] == symbols[k];
        let m = choose|m: int| 0 <= m < hits.len() && is_same(#[trigger] hits[m], rows[j]);
        assert(is_same(hits[m], symbols[k]));
    }
}

proof fn lemma_silent(
    symbols: Seq<SymbolRow>,
    callee: Seq<char>,
    level: Seq<Seq<char>>,
    hits: Seq<SymbolRow>,
)
    requires
        are_hits(symbols, callee, level, hits),
    ensures
        is_silent(symbols, callee, level) <==> hits.len() == 0,
{
    if hits.len() > 0 {
        assert(is_row(symbols, callee, level, hits[0]));
        let k = choose|k: int|
            0 <= k < symbols.len() && #[trigger] symbols[k] == hits[0] && declared_by(
                symbols[k],
                callee,
                level,
            );
        assert(declared_by(symbols[k], callee, level));
    }
}

#[verifier::rlimit(40)]
proof fn lemma_torn(
    symbols: Seq<SymbolRow>,
    callee: Seq<char>,
    level: Seq<Seq<char>>,
    hits: Seq<SymbolRow>,
)
    requires
        are_hits(symbols, callee, level, hits),
    ensures
        is_torn(symbols, callee, level) <==> hits.len() > 1,
{
    if hits.len() > 1 {
        assert(is_row(symbols, callee, level, hits[0]));
        assert(is_row(symbols, callee, level, hits[1]));
        let a = choose|k: int|
            0 <= k < symbols.len() && #[trigger] symbols[k] == hits[0] && declared_by(
                symbols[k],
                callee,
                level,
            );
        let b = choose|k: int|
            0 <= k < symbols.len() && #[trigger] symbols[k] == hits[1] && declared_by(
                symbols[k],
                callee,
                level,
            );
        assert(!is_same(symbols[a], symbols[b]));
    }
    if is_torn(symbols, callee, level) {
        let (a, b) = choose|a: int, b: int|
            0 <= a < symbols.len() && 0 <= b < symbols.len() && declared_by(
                #[trigger] symbols[a],
                callee,
                level,
            ) && declared_by(#[trigger] symbols[b], callee, level) && !is_same(
                symbols[a],
                symbols[b],
            );
        assert(is_covered(hits, symbols[a]) && is_covered(hits, symbols[b]));
        let m = choose|m: int| 0 <= m < hits.len() && is_same(#[trigger] hits[m], symbols[a]);
        let n = choose|m: int| 0 <= m < hits.len() && is_same(#[trigger] hits[m], symbols[b]);
        assert(m != n);
    }
}

proof fn lemma_only(
    symbols: Seq<SymbolRow>,
    callee: Seq<char>,
    level: Seq<Seq<char>>,
    hits: Seq<SymbolRow>,
    k: int,
)
    requires
        are_hits(symbols, callee, level, hits),
        is_only(symbols, callee, level, k),
    ensures
        hits.len() == 1,
        is_same(hits[0], symbols[k]),
        symbols.contains(hits[0]),
        declared_by(hits[0], callee, level),
{
    lemma_silent(symbols, callee, level, hits);
    lemma_torn(symbols, callee, level, hits);
    assert(declared_by(symbols[k], callee, level));
    assert(is_row(symbols, callee, level, hits[0]));
    if is_torn(symbols, callee, level) {
        let (a, b) = choose|a: int, b: int|
            0 <= a < symbols.len() && 0 <= b < symbols.len() && declared_by(
                #[trigger] symbols[a],
                callee,
                level,
            ) && declared_by(#[trigger] symbols[b], callee, level) && !is_same(
                symbols[a],
                symbols[b],
            );
        assert(is_same(symbols[a], symbols[k]) && is_same(symbols[b], symbols[k]));
    }
}

/// The hits at one level: one that stands for the only declaration, or none, or
/// several.
proof fn lemma_level(symbols: Seq<SymbolRow>, callee: Seq<char>, level: Seq<Seq<char>>)
    ensures
        ({
            let hits = reconcile::distinct(reconcile::declared_at(symbols, callee, level));
            &&& is_silent(symbols, callee, level) <==> hits.len() == 0
            &&& is_torn(symbols, callee, level) <==> hits.len() > 1
            &&& forall|k: int| #[trigger]
                is_only(symbols, callee, level, k) ==> hits.len() == 1 && is_same(
                    hits[0],
                    symbols[k],
                ) && symbols.contains(hits[0]) && declared_by(hits[0], callee, level)
        }),
{
    let hits = reconcile::distinct(reconcile::declared_at(symbols, callee, level));
    lemma_are_hits(symbols, callee, level);
    lemma_silent(symbols, callee, level, hits);
    lemma_torn(symbols, callee, level, hits);
    assert forall|k: int| #[trigger] is_only(symbols, callee, level, k) implies hits.len() == 1
        && is_same(hits[0], symbols[k]) && symbols.contains(hits[0]) && declared_by(
        hits[0],
        callee,
        level,
    ) by {
        lemma_only(symbols, callee, level, hits, k);
    }
}

proof fn lemma_skip_silent(
    symbols: Seq<SymbolRow>,
    callee: Seq<char>,
    levels: Seq<Seq<Seq<char>>>,
    i: int,
)
    requires
        0 <= i <= levels.len(),
        forall|j: int| 0 <= j < i ==> is_silent(symbols, callee, #[trigger] levels[j]),
    ensures
        reconcile::inherited(symbols, callee, levels) == reconcile::inherited(
            symbols,
            callee,
            levels.skip(i),
        ),
    decreases i,
{
    if i == 0 {
        assert(levels.skip(0) =~= levels);
    } else {
        assert(is_silent(symbols, callee, levels[0]));
        lemma_level(symbols, callee, levels[0]);
        let rest = levels.drop_first();
        assert forall|j: int| 0 <= j < i - 1 implies is_silent(
            symbols,
            callee,
            #[trigger] rest[j],
        ) by {
            assert(rest[j] == levels[j + 1]);
        }
        lemma_skip_silent(symbols, callee, rest, i - 1);
        assert(rest.skip(i - 1) =~= levels.skip(i));
    }
}

/// The nearest distance at which any ancestor declares the callee decides,
/// however many silent ones lie before it: where it declares exactly one thing,
/// that is what the class inherits.
pub proof fn lemma_nearest_declaration(
    ctx: ResolutionCtx,
    callee: Seq<char>,
    cls: Seq<char>,
    levels: Seq<Seq<Seq<char>>>,
    i: int,
    k: int,
)
    requires
        ctx.ancestors_of(cls) == Some(levels),
        0 <= i < levels.len(),
        forall|j: int| 0 <= j < i ==> is_silent(ctx.symbols(), callee, #[trigger] levels[j]),
        is_only(ctx.symbols(), callee, levels[i], k),
    ensures
        reconcile::inherited_for(ctx, callee, cls) matches Some(v) && v.len() == 1 && is_same(
            v[0],
            ctx.symbols()[k],
        ) && ctx.symbols().contains(v[0]) && declared_by(v[0], callee, levels[i]),
{
    lemma_skip_silent(ctx.symbols(), callee, levels, i);
    lemma_level(ctx.symbols(), callee, levels[i]);
    assert(levels.skip(i)[0] == levels[i]);
}

/// A class inherits nothing only where no ancestor declares the callee, or where
/// the nearest distance that does declares several things of that name.
pub proof fn lemma_nothing_inherited(
    ctx: ResolutionCtx,
    callee: Seq<char>,
    cls: Seq<char>,
    levels: Seq<Seq<Seq<char>>>,
)
    requires
        ctx.ancestors_of(cls) == Some(levels),
    ensures
        reconcile::inherited_for(ctx, callee, cls) is None <==> ((forall|j: int|
            0 <= j < levels.len() ==> is_silent(ctx.symbols(), callee, #[trigger] levels[j]))
            || exists|i: int|
            0 <= i < levels.len() && is_torn(ctx.symbols(), callee, #[trigger] levels[i])
                && forall|j: int|
                0 <= j < i ==> is_silent(ctx.symbols(), callee, #[trigger] levels[j])),
{
    let symbols = ctx.symbols();
    let i = lemma_first_loud(symbols, callee, levels);
    lemma_skip_silent(symbols, callee, levels, i);
    if i == levels.len() {
        assert(levels.skip(i).len() == 0);
    } else {
        assert(levels.skip(i)[0] == levels[i]);
        lemma_level(symbols, callee, levels[i]);
        if exists|x: int|
            0 <= x < levels.len() && is_torn(symbols, callee, #[trigger] levels[x]) && forall|j: int|
                0 <= j < x ==> is_silent(symbols, callee, #[trigger] levels[j]) {
            let x = choose|x: int|
                0 <= x < levels.len() && is_torn(symbols, callee, #[trigger] levels[x])
                    && forall|j: int|
                    0 <= j < x ==> is_silent(symbols, callee, #[trigger] levels[j]);
            lemma_level(symbols, callee, levels[x]);
            assert(x == i);
        }
    }
}

proof fn lemma_first_loud(
    symbols: Seq<SymbolRow>,
    callee: Seq<char>,
    levels: Seq<Seq<Seq<char>>>,
) -> (i: int)
    ensures
        0 <= i <= levels.len(),
        forall|j: int| 0 <= j < i ==> is_silent(symbols, callee, #[trigger] levels[j]),
        i < levels.len() ==> !is_silent(symbols, callee, levels[i]),
    decreases levels.len(),
{
    if levels.len() == 0 || !is_silent(symbols, callee, levels[0]) {
        0
    } else {
        let rest = levels.drop_first();
        let i = lemma_first_loud(symbols, callee, rest);
        assert forall|j: int| 0 <= j < i + 1 implies is_silent(
            symbols,
            callee,
            #[trigger] levels[j],
        ) by {
            if j > 0 {
                assert(rest[j - 1] == levels[j]);
            }
        }
        i + 1
    }
}

/// A class without known ancestors inherits nothing.
pub proof fn lemma_no_ancestors(ctx: ResolutionCtx, callee: Seq<char>, cls: Seq<char>)
    requires
        ctx.ancestors_of(cls) is None,
    ensures
        reconcile::inherited_for(ctx, callee, cls) is None,
{
}

/// The symbol at `j` is the last one stored under `q`.
pub open spec fn is_last(symbols: Seq<SymbolRow>, j: int, q: Seq<char>) -> bool {
    &&& 0 <= j < symbols.len()
    &&& symbols[j].qualified_name@ == q
    &&& forall|k: int| j < k < symbols.len() ==> (#[trigger] symbols[k]).qualified_name@ != q
}

pub proof fn lemma_last_filter<T>(s: Seq<T>, p: spec_fn(T) -> bool, j: int)
    requires
        0 <= j < s.len(),
        p(s[j]),
        forall|k: int| j < k < s.len() ==> !p(#[trigger] s[k]),
    ensures
        s.filter(p).len() > 0,
        s.filter(p).last() == s[j],
    decreases s.len(),
{
    reveal(Seq::filter);
    if j < s.len() - 1 {
        let less = s.drop_last();
        assert(!p(s[s.len() - 1]));
        assert(forall|k: int| 0 <= k < less.len() ==> less[k] == s[k]);
        lemma_last_filter(less, p, j);
    }
}

/// The child and the parent of a relation: both ends are symbols, the relation
/// says `extends` or `implements`, and it is resolved.
pub open spec fn is_parent(
    symbols: Seq<SymbolRow>,
    relations: Seq<TypeRelationRow>,
    c: Seq<char>,
    p: Seq<char>,
) -> bool {
    exists|i: int, a: int, b: int|
        0 <= i < relations.len() && #[trigger] relation_between(symbols, relations[i], a, b)
            && symbols[a].name@ == c && symbols[b].name@ == p
}

pub open spec fn relation_between(
    symbols: Seq<SymbolRow>,
    r: TypeRelationRow,
    a: int,
    b: int,
) -> bool {
    &&& r.relation_kind@ == "extends"@ || r.relation_kind@ == "implements"@
    &&& r.confidence@ == "resolved"@
    &&& r.to_symbol is Some
    &&& is_last(symbols, a, r.from_symbol@)
    &&& is_last(symbols, b, r.to_symbol->Some_0@)
}

proof fn lemma_name_of(symbols: Seq<SymbolRow>, q: Seq<char>) -> (j: int)
    ensures
        context::name_of_qn(symbols, q) is None ==> j == -1,
        context::name_of_qn(symbols, q) matches Some(n) ==> is_last(symbols, j, q) && n
            == symbols[j].name@,
        forall|k: int| #[trigger] is_last(symbols, k, q) ==> k == j,
    decreases symbols.len(),
{
    let p = context::has_qn(q);
    if exists|k: int| #[trigger] is_last(symbols, k, q) {
        let k = choose|k: int| #[trigger] is_last(symbols, k, q);
        lemma_last_filter(symbols, p, k);
        k
    } else {
        let hits = symbols.filter(p);
        if hits.len() > 0 {
            lemma_some_last(symbols, q);
        }
        -1
    }
}

proof fn lemma_some_last(symbols: Seq<SymbolRow>, q: Seq<char>)
    requires
        symbols.filter(context::has_qn(q)).len() > 0,
    ensures
        exists|k: int| #[trigger] is_last(symbols, k, q),
    decreases symbols.len(),
{
    reveal(Seq::filter);
    if symbols.len() > 0 {
        if symbols.last().qualified_name@ == q {
            assert(is_last(symbols, symbols.len() - 1, q));
        } else {
            let less = symbols.drop_last();
            lemma_some_last(less, q);
            let k = choose|k: int| #[trigger] is_last(less, k, q);
            assert(forall|m: int| 0 <= m < less.len() ==> less[m] == symbols[m]);
            assert(is_last(symbols, k, q)) by {
                assert forall|m: int| k < m < symbols.len() implies (#[trigger]
                symbols[m]).qualified_name@ != q by {
                    if m < less.len() {
                        assert(less[m].qualified_name@ != q);
                    }
                }
            }
        }
    }
}

/// The parents of a class are read off the resolved relations alone.
#[verifier::rlimit(40)]
pub proof fn lemma_parents(
    symbols: Seq<SymbolRow>,
    relations: Seq<TypeRelationRow>,
    c: Seq<char>,
    p: Seq<char>,
)
    ensures
        context::parent_edges(symbols, relations).contains((c, p)) <==> is_parent(
            symbols,
            relations,
            c,
            p,
        ),
    decreases relations.len(),
{
    let all = context::parent_edges(symbols, relations);
    if relations.len() > 0 {
        let less = relations.drop_last();
        let init = context::parent_edges(symbols, less);
        let r = relations.last();
        lemma_parents(symbols, less, c, p);
        let a = lemma_name_of(symbols, r.from_symbol@);
        let b = if r.to_symbol is Some {
            lemma_name_of(symbols, r.to_symbol->Some_0@)
        } else {
            -1
        };
        if all.contains((c, p)) {
            let k = choose|k: int| 0 <= k < all.len() && all[k] == (c, p);
            if k < init.len() {
                assert(init[k] == (c, p));
                let (i, x, y) = choose|i: int, x: int, y: int|
                    0 <= i < less.len() && #[trigger] relation_between(symbols, less[i], x, y)
                        && symbols[x].name@ == c && symbols[y].name@ == p;
                assert(relation_between(symbols, relations[i], x, y));
            } else {
                assert(relation_between(symbols, relations[relations.len() - 1], a, b));
            }
        }
        if is_parent(symbols, relations, c, p) {
            let (i, x, y) = choose|i: int, x: int, y: int|
                0 <= i < relations.len() && #[trigger] relation_between(
                    symbols,
                    relations[i],
                    x,
                    y,
                ) && symbols[x].name@ == c && symbols[y].name@ == p;
            if i < less.len() {
                assert(relation_between(symbols, less[i], x, y));
                let k = choose|k: int| 0 <= k < init.len() && init[k] == (c, p);
                assert(all[k] == (c, p));
            } else {
                assert(all[all.len() - 1] == (c, p));
            }
        }
    } else {
        assert(!all.contains((c, p)));
    }
}

proof fn lemma_parents_of(
    edges: Seq<(Seq<char>, Seq<char>)>,
    c: Seq<char>,
    p: Seq<char>,
)
    ensures
        context::parents_of(edges, c).contains(p) <==> edges.contains((c, p)),
    decreases edges.len(),
{
    let all = context::parents_of(edges, c);
    if edges.len() > 0 {
        let less = edges.drop_last();
        let init = context::parents_of(less, c);
        lemma_parents_of(less, c, p);
        if all.contains(p) {
            let k = choose|k: int| 0 <= k < all.len() && all[k] == p;
            if k < init.len() {
                assert(init[k] == p);
                let j = choose|j: int| 0 <= j < less.len() && less[j] == (c, p);
                assert(edges[j] == (c, p));
            } else {
                assert(edges[edges.len() - 1] == (c, p));
            }
        }
        if edges.contains((c, p)) {
            let j = choose|j: int| 0 <= j < edges.len() && edges[j] == (c, p);
            if j < less.len() {
                assert(less[j] == (c, p));
                let k = choose|k: int| 0 <= k < init.len() && init[k] == p;
                assert(all[k] == p);
            } else {
                assert(all[all.len() - 1] == p);
            }
        }
    } else {
        assert(!all.contains(p));
    }
}

proof fn lemma_offers(
    edges: Seq<(Seq<char>, Seq<char>)>,
    level: Seq<Seq<char>>,
    j: int,
    p: Seq<char>,
)
    requires
        0 <= j < level.len(),
        edges.contains((level[j], p)),
    ensures
        context::offers(edges, level).contains(p),
    decreases level.len(),
{
    let less = level.drop_last();
    let init = context::offers(edges, less);
    let own = context::parents_of(edges, level.last());
    let all = context::offers(edges, level);
    if j < less.len() {
        assert(less[j] == level[j]);
        lemma_offers(edges, less, j, p);
        let k = choose|k: int| 0 <= k < init.len() && init[k] == p;
        assert(all[k] == p);
    } else {
        lemma_parents_of(edges, level.last(), p);
        let k = choose|k: int| 0 <= k < own.len() && own[k] == p;
        assert(all[init.len() + k] == p);
    }
}

proof fn lemma_fresh_keeps(seen: Seq<Seq<char>>, offered: Seq<Seq<char>>, n: Seq<char>)
    requires
        offered.contains(n),
        !seen.contains(n),
    ensures
        context::fresh(seen, offered).contains(n),
    decreases offered.len(),
{
    let less = offered.drop_last();
    let init = context::fresh(seen, less);
    let all = context::fresh(seen, offered);
    let j = choose|j: int| 0 <= j < offered.len() && offered[j] == n;
    if offered.last() == n {
        if init.contains(n) {
            let k = choose|k: int| 0 <= k < init.len() && init[k] == n;
            assert(all[k] == n);
        } else {
            assert(all[all.len() - 1] == n);
        }
    } else {
        assert(less[j] == n);
        lemma_fresh_keeps(seen, less, n);
        let k = choose|k: int| 0 <= k < init.len() && init[k] == n;
        assert(all[k] == n);
    }
}

/// A parent of a class that stands at some distance stands at most one step
/// farther, or is the class itself that was asked about.
proof fn lemma_levels_closed(
    edges: Seq<(Seq<char>, Seq<char>)>,
    level: Seq<Seq<char>>,
    seen: Seq<Seq<char>>,
    left: nat,
    x: Seq<char>,
    p: Seq<char>,
)
    requires
        level.contains(x),
        edges.contains((x, p)),
        left > 0,
    ensures
        seen.contains(p) || (context::levels(edges, level, seen, left).len() > 0 && context::levels(
            edges,
            level,
            seen,
            left,
        )[0].contains(p)),
{
    let j = choose|j: int| 0 <= j < level.len() && level[j] == x;
    lemma_offers(edges, level, j, p);
    if !seen.contains(p) {
        lemma_fresh_keeps(seen, context::offers(edges, level), p);
        let next = context::fresh(seen, context::offers(edges, level));
        let k = choose|k: int| 0 <= k < next.len() && next[k] == p;
        assert(next.len() > 0);
    }
}

#[verifier::rlimit(40)]
proof fn lemma_levels_step(
    edges: Seq<(Seq<char>, Seq<char>)>,
    level: Seq<Seq<char>>,
    seen: Seq<Seq<char>>,
    left: nat,
    d: int,
    x: Seq<char>,
    p: Seq<char>,
)
    requires
        0 <= d < context::levels(edges, level, seen, left).len(),
        d + 1 < left,
        context::levels(edges, level, seen, left)[d].contains(x),
        edges.contains((x, p)),
    ensures
        seen.contains(p) || exists|e: int|
            0 <= e <= d + 1 && e < context::levels(edges, level, seen, left).len()
                && #[trigger] context::levels(edges, level, seen, left)[e].contains(p),
    decreases left,
{
    let all = context::levels(edges, level, seen, left);
    let next = context::fresh(seen, context::offers(edges, level));
    let rest = context::levels(edges, next, seen + next, (left - 1) as nat);
    assert(all == seq![next] + rest);
    if d == 0 {
        lemma_levels_closed(edges, next, seen + next, (left - 1) as nat, x, p);
        if (seen + next).contains(p) {
            if !seen.contains(p) {
                let k = choose|k: int| 0 <= k < (seen + next).len() && (seen + next)[k] == p;
                if k < seen.len() {
                    assert(seen[k] == p);
                } else {
                    assert(next[k - seen.len()] == p);
                }
                assert(all[0].contains(p));
            }
        } else {
            assert(all[1] == rest[0]);
            assert(all[1].contains(p));
        }
    } else {
        assert(all[d] == rest[d - 1]);
        lemma_levels_step(edges, next, seen + next, (left - 1) as nat, d - 1, x, p);
        if (seen + next).contains(p) {
            if !seen.contains(p) {
                let k = choose|k: int| 0 <= k < (seen + next).len() && (seen + next)[k] == p;
                if k < seen.len() {
                    assert(seen[k] == p);
                } else {
                    assert(next[k - seen.len()] == p);
                }
                assert(all[0].contains(p));
            }
        } else {
            let e = choose|e: int|
                0 <= e <= d && e < rest.len() && #[trigger] rest[e].contains(p);
            assert(all[e + 1] == rest[e]);
            assert(all[e + 1].contains(p));
        }
    }
}

/// `w` leads from `c` up to `p`, each name a child of the next.
pub open spec fn is_lineage(
    edges: Seq<(Seq<char>, Seq<char>)>,
    w: Seq<Seq<char>>,
    c: Seq<char>,
    p: Seq<char>,
) -> bool {
    w.len() >= 2 && w[0] == c && w.last() == p && forall|i: int|
        0 <= i < w.len() - 1 ==> edges.contains((#[trigger] w[i], w[i + 1]))
}

/// Every ancestor that can be reached in at most twelve steps is listed, at that
/// distance or nearer.
#[verifier::rlimit(40)]
pub proof fn lemma_ancestor_listed(
    edges: Seq<(Seq<char>, Seq<char>)>,
    w: Seq<Seq<char>>,
    c: Seq<char>,
    p: Seq<char>,
) -> (d: int)
    requires
        is_lineage(edges, w, c, p),
        w.len() <= 13,
        p != c,
    ensures
        0 <= d <= w.len() - 2,
        d < context::ancestors(edges, c).len(),
        context::ancestors(edges, c)[d].contains(p),
    decreases w.len(),
{
    let all = context::ancestors(edges, c);
    let one = seq![c];
    let n = w.len() as int;
    let x = w[n - 2];
    assert(edges.contains((w[n - 2], w[n - 2 + 1])));
    assert(one[0] == c);
    if x == c {
        assert(one.contains(c));
        lemma_levels_closed(edges, one, one, 12, c, p);
        0
    } else {
        let v = w.drop_last();
        assert(is_lineage(edges, v, c, x)) by {
            assert forall|i: int| 0 <= i < v.len() - 1 implies edges.contains(
                (#[trigger] v[i], v[i + 1]),
            ) by {
                assert(v[i] == w[i] && v[i + 1] == w[i + 1]);
                assert(edges.contains((w[i], w[i + 1])));
            }
        }
        let d = lemma_ancestor_listed(edges, v, c, x);
        lemma_levels_step(edges, one, one, 12, d, x, p);
        choose|e: int| 0 <= e <= d + 1 && e < all.len() && #[trigger] all[e].contains(p)
    }
}

/// A listed ancestor is reached in as many steps as its distance says, and no
/// chain of fewer steps leads to it; at most twelve distances are listed.
#[verifier::rlimit(40)]
pub proof fn lemma_ancestor_distance(
    edges: Seq<(Seq<char>, Seq<char>)>,
    c: Seq<char>,
    d: int,
    p: Seq<char>,
) -> (w: Seq<Seq<char>>)
    requires
        0 <= d < context::ancestors(edges, c).len(),
        context::ancestors(edges, c)[d].contains(p),
    ensures
        d < 12,
        p != c,
        w.len() == d + 2,
        is_lineage(edges, w, c, p),
        forall|v: Seq<Seq<char>>| #[trigger] is_lineage(edges, v, c, p) ==> v.len() >= d + 2,
{
    context::lemma_ancestors_depth(edges, c);
    context::lemma_ancestors_distinct(edges, c, d, d, p);
    let w = lemma_lineage(edges, c, d, p);
    assert forall|v: Seq<Seq<char>>| #[trigger] is_lineage(edges, v, c, p) implies v.len() >= d
        + 2 by {
        if v.len() < d + 2 {
            let e = lemma_ancestor_listed(edges, v, c, p);
            context::lemma_ancestors_distinct(edges, c, e, d, p);
        }
    }
    w
}

#[verifier::rlimit(40)]
proof fn lemma_lineage(
    edges: Seq<(Seq<char>, Seq<char>)>,
    c: Seq<char>,
    d: int,
    p: Seq<char>,
) -> (w: Seq<Seq<char>>)
    requires
        0 <= d < context::ancestors(edges, c).len(),
        context::ancestors(edges, c)[d].contains(p),
    ensures
        w.len() == d + 2,
        is_lineage(edges, w, c, p),
    decreases d,
{
    context::lemma_ancestors_linked(edges, c, d, p);
    if d == 0 {
        let w = seq![c, p];
        assert(edges.contains((w[0], w[1])));
        w
    } else {
        let x = choose|x: Seq<char>| #[trigger]
            context::ancestors(edges, c)[d - 1].contains(x) && edges.contains((x, p));
        let v = lemma_lineage(edges, c, d - 1, x);
        let w = v.push(p);
        assert forall|i: int| 0 <= i < w.len() - 1 implies edges.contains(
            (#[trigger] w[i], w[i + 1]),
        ) by {
            if i < v.len() - 1 {
                assert(edges.contains((v[i], v[i + 1])));
            }
        }
        w
    }
}

/// A class has ancestors exactly where it has a parent.
pub proof fn lemma_has_parents(edges: Seq<(Seq<char>, Seq<char>)>, c: Seq<char>)
    ensures
        context::parents_of(edges, c).len() > 0 <==> exists|p: Seq<char>| #[trigger]
            edges.contains((c, p)),
{
    let all = context::parents_of(edges, c);
    if all.len() > 0 {
        assert(all.contains(all[0]));
        lemma_parents_of(edges, c, all[0]);
    }
    if exists|p: Seq<char>| #[trigger] edges.contains((c, p)) {
        let p = choose|p: Seq<char>| #[trigger] edges.contains((c, p));
        lemma_parents_of(edges, c, p);
    }
}

/// The file row gives a language to the path.
pub open spec fn gives_language(f: FileRow, path: Seq<char>) -> bool {
    f.path@ == path && f.language is Some
}

/// The language of a path is that of the last file row with the path that has
/// one.
pub proof fn lemma_language(files: Seq<FileRow>, path: Seq<char>, j: int)
    requires
        0 <= j < files.len(),
        gives_language(files[j], path),
        forall|k: int| j < k < files.len() ==> !gives_language(#[trigger] files[k], path),
    ensures
        context::language_in(files, path) == Some(files[j].language->Some_0@),
    decreases files.len(),
{
    if j < files.len() - 1 {
        let less = files.drop_last();
        assert(!gives_language(files[files.len() - 1], path));
        assert(forall|k: int| 0 <= k < less.len() ==> less[k] == files[k]);
        lemma_language(less, path, j);
    }
}

/// A path has no language where no file row gives it one.
pub proof fn lemma_no_language(files: Seq<FileRow>, path: Seq<char>)
    requires
        forall|k: int| 0 <= k < files.len() ==> !gives_language(#[trigger] files[k], path),
    ensures
        context::language_in(files, path) is None,
    decreases files.len(),
{
    if files.len() > 0 {
        let less = files.drop_last();
        assert(!gives_language(files[files.len() - 1], path));
        assert(forall|k: int| 0 <= k < less.len() ==> less[k] == files[k]);
        lemma_no_language(less, path);
    }
}

} // verus!
