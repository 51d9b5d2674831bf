//! Which symbols a call site reaches, and what its edges say.

use vstd::prelude::*;

use crate::context;
use crate::context::{ResolutionCtx, SymbolRow};
use crate::edges::CallEdgeView;
use crate::inheritance_laws;
use crate::paths;
use crate::reconcile;
use crate::reconcile::{CallSiteRow, Verdict};
use crate::text;

verus! {

// ---------------------------------------------------------------------------
// Filtered lists
// ---------------------------------------------------------------------------

proof fn lemma_some_left<T>(s: Seq<T>, p: spec_fn(T) -> bool)
    ensures
        s.filter(p).len() > 0 <==> exists|x: T| #[trigger] s.contains(x) && p(x),
{
    let f = s.filter(p);
    if f.len() > 0 {
        assert(f.contains(f[0]));
        inheritance_laws::lemma_filter_iff(s, p, f[0]);
        assert(s.contains(f[0]) && p(f[0]));
    }
    if exists|x: T| #[trigger] s.contains(x) && p(x) {
        let x = choose|x: T| #[trigger] s.contains(x) && p(x);
        inheritance_laws::lemma_filter_iff(s, p, x);
        assert(f.contains(x));
    }
}

proof fn lemma_none_left<T>(s: Seq<T>, p: spec_fn(T) -> bool)
    requires
        forall|k: int| 0 <= k < s.len() ==> !p(#[trigger] s[k]),
    ensures
        s.filter(p) == Seq::<T>::empty(),
{
    if s.filter(p).len() > 0 {
        lemma_some_left(s, p);
        let x = choose|x: T| #[trigger] s.contains(x) && p(x);
        let k = choose|k: int| 0 <= k < s.len() && s[k] == x;
        assert(!p(s[k]));
    }
    assert(s.filter(p) =~= Seq::<T>::empty());
}

proof fn lemma_one_left<T>(s: Seq<T>, p: spec_fn(T) -> bool, k: int)
    requires
        0 <= k < s.len(),
        p(s[k]),
        forall|j: int| 0 <= j < s.len() && j != k ==> !p(#[trigger] s[j]),
    ensures
        s.filter(p) == seq![s[k]],
    decreases s.len(),
{
    reveal(Seq::filter);
    let less = s.drop_last();
    assert(forall|j: int| 0 <= j < less.len() ==> less[j] == s[j]);
    if k == s.len() - 1 {
        lemma_none_left(less, p);
        assert(s.filter(p) =~= seq![s[k]]);
    } else {
        assert(!p(s[s.len() - 1]));
        lemma_one_left(less, p, k);
    }
}

proof fn lemma_all_left<T>(s: Seq<T>, p: spec_fn(T) -> bool)
    requires
        forall|k: int| 0 <= k < s.len() ==> p(#[trigger] s[k]),
    ensures
        s.filter(p) == s,
    decreases s.len(),
{
    reveal(Seq::filter);
    if s.len() > 0 {
        let less = s.drop_last();
        assert(forall|j: int| 0 <= j < less.len() ==> less[j] == s[j]);
        assert(p(s[s.len() - 1]));
        lemma_all_left(less, p);
        assert(s.filter(p) =~= s);
    } else {
        assert(s.filter(p) =~= s);
    }
}

// ---------------------------------------------------------------------------
// The candidates by name and class
// ---------------------------------------------------------------------------

/// The symbols that the class declares under the callee's name.
pub open spec fn is_own(ctx: ResolutionCtx, site: CallSiteRow, c: Seq<char>, r: SymbolRow) -> bool {
    ctx.symbols().contains(r) && inheritance_laws::declares(r, site.callee@, c)
}

pub open spec fn has_own(ctx: ResolutionCtx, site: CallSiteRow, c: Seq<char>) -> bool {
    exists|r: SymbolRow| #[trigger] is_own(ctx, site, c, r)
}

/// Some symbol bears the name of the class.
pub open spec fn is_class_known(ctx: ResolutionCtx, c: Seq<char>) -> bool {
    exists|k: int|
        0 <= k < ctx.symbols().len() && (#[trigger] ctx.symbols()[k]).name@ == c
}

/// Where the class was found says that the row is of that class.
pub open spec fn is_meant(site: CallSiteRow, r: SymbolRow) -> bool {
    site.target_type_kind is Some && site.target_type_qn is Some && reconcile::type_matches(
        site.target_type_kind->Some_0@,
        site.target_type_qn->Some_0@,
        r.path@,
    )
}

#[verifier::rlimit(40)]
proof fn lemma_own(ctx: ResolutionCtx, site: CallSiteRow, c: Seq<char>)
    ensures
        forall|r: SymbolRow| #[trigger]
            reconcile::own_members(ctx, site, c).contains(r) <==> (is_own(ctx, site, c, r) && ((
            exists|x: SymbolRow| #[trigger] is_own(ctx, site, c, x) && is_meant(site, x))
                ==> is_meant(site, r))),
        reconcile::own_members(ctx, site, c).len() > 0 <==> has_own(ctx, site, c),
{
    let p = context::member(site.callee@, c);
    let own = ctx.symbols().filter(p);
    let kept = reconcile::own_members(ctx, site, c);
    assert forall|r: SymbolRow| #[trigger] own.contains(r) <==> is_own(ctx, site, c, r) by {
        inheritance_laws::lemma_filter_iff(ctx.symbols(), p, r);
    }
    if own.len() > 0 {
        assert(own.contains(own[0]));
        assert(is_own(ctx, site, c, own[0]));
    }
    if has_own(ctx, site, c) {
        let r = choose|r: SymbolRow| #[trigger] is_own(ctx, site, c, r);
        assert(own.contains(r));
    }
    let told = site.target_type_kind is Some && site.target_type_qn is Some;
    if told {
        let q = reconcile::qualifies(site.target_type_kind->0@, site.target_type_qn->0@);
        let some = own.filter(q);
        lemma_some_left(own, q);
        assert forall|r: SymbolRow| #[trigger] some.contains(r) <==> own.contains(r) && is_meant(
            site,
            r,
        ) by {
            inheritance_laws::lemma_filter_iff(own, q, r);
        }
        if exists|x: SymbolRow| #[trigger] is_own(ctx, site, c, x) && is_meant(site, x) {
            let x = choose|x: SymbolRow| #[trigger] is_own(ctx, site, c, x) && is_meant(site, x);
            assert(own.contains(x) && q(x));
            assert(some.len() > 0);
            if own.len() == 1 {
                assert(own[0] == x);
                assert forall|r: SymbolRow| #[trigger] kept.contains(r) implies is_meant(
                    site,
                    r,
                ) by {
                    let k = choose|k: int| 0 <= k < kept.len() && kept[k] == r;
                    assert(r == x);
                }
            }
        } else {
            if some.len() > 0 {
                let x = choose|x: SymbolRow| #[trigger] own.contains(x) && q(x);
                assert(is_own(ctx, site, c, x) && is_meant(site, x));
            }
        }
    } else {
        assert(kept == own);
    }
    if own.len() > 0 {
        assert(kept.len() > 0);
    }
}

/// Without a class every symbol of the callee's name is a candidate.
pub proof fn lemma_found_by_name(ctx: ResolutionCtx, site: CallSiteRow)
    requires
        site.target_class is None,
    ensures
        !reconcile::found(ctx, site).1,
        forall|r: SymbolRow| #[trigger]
            reconcile::found(ctx, site).0.contains(r) <==> ctx.symbols().contains(r) && r.name@
                == site.callee@,
{
    let p = context::named(site.callee@);
    assert forall|r: SymbolRow| #[trigger]
        reconcile::found(ctx, site).0.contains(r) <==> ctx.symbols().contains(r) && r.name@
            == site.callee@ by {
        inheritance_laws::lemma_filter_iff(ctx.symbols(), p, r);
    }
}

/// Where the class declares the callee itself, its own declarations are the
/// candidates; only those of the class that is meant, where that is known of
/// any.
pub proof fn lemma_found_own(ctx: ResolutionCtx, site: CallSiteRow)
    requires
        site.target_class is Some,
        has_own(ctx, site, site.target_class->Some_0@),
    ensures
        reconcile::found(ctx, site).1,
        reconcile::found(ctx, site).0.len() > 0,
        forall|r: SymbolRow| #[trigger]
            reconcile::found(ctx, site).0.contains(r) <==> (is_own(
                ctx,
                site,
                site.target_class->Some_0@,
                r,
            ) && ((exists|x: SymbolRow| #[trigger]
                is_own(ctx, site, site.target_class->Some_0@, x) && is_meant(site, x)) ==> is_meant(
                site,
                r,
            ))),
{
    lemma_own(ctx, site, site.target_class->Some_0@);
}

/// Where it does not, but is known, what it inherits from the nearest ancestors
/// is the only candidate.
pub proof fn lemma_found_inherited(
    ctx: ResolutionCtx,
    site: CallSiteRow,
    levels: Seq<Seq<Seq<char>>>,
    i: int,
    k: int,
)
    requires
        site.target_class is Some,
        !has_own(ctx, site, site.target_class->Some_0@),
        is_class_known(ctx, site.target_class->Some_0@),
        ctx.ancestors_of(site.target_class->Some_0@) == Some(levels),
        0 <= i < levels.len(),
        forall|j: int|
            0 <= j < i ==> inheritance_laws::is_silent(
                ctx.symbols(),
                site.callee@,
                #[trigger] levels[j],
            ),
        inheritance_laws::is_only(ctx.symbols(), site.callee@, levels[i], k),
    ensures
        reconcile::found(ctx, site).1,
        reconcile::found(ctx, site).0.len() == 1,
        inheritance_laws::is_same(reconcile::found(ctx, site).0[0], ctx.symbols()[k]),
        ctx.symbols().contains(reconcile::found(ctx, site).0[0]),
{
    let c = site.target_class->Some_0@;
    lemma_own(ctx, site, c);
    lemma_class_known(ctx, c);
    inheritance_laws::lemma_nearest_declaration(ctx, site.callee@, c, levels, i, k);
}

proof fn lemma_class_known(ctx: ResolutionCtx, c: Seq<char>)
    ensures
        ctx.symbols().filter(context::named(c)).len() > 0 <==> is_class_known(ctx, c),
{
    let p = context::named(c);
    lemma_some_left(ctx.symbols(), p);
    if is_class_known(ctx, c) {
        let k = choose|k: int|
            0 <= k < ctx.symbols().len() && (#[trigger] ctx.symbols()[k]).name@ == c;
        assert(ctx.symbols().contains(ctx.symbols()[k]) && p(ctx.symbols()[k]));
    }
    if ctx.symbols().filter(p).len() > 0 {
        let x = choose|x: SymbolRow| #[trigger] ctx.symbols().contains(x) && p(x);
        let k = choose|k: int| 0 <= k < ctx.symbols().len() && ctx.symbols()[k] == x;
        assert(ctx.symbols()[k].name@ == c);
    }
}

/// A class that is known and neither declares nor inherits the callee decides
/// nothing: the symbols of the callee's name are the candidates.
pub proof fn lemma_found_fallback(ctx: ResolutionCtx, site: CallSiteRow)
    requires
        site.target_class is Some,
        !has_own(ctx, site, site.target_class->Some_0@),
        is_class_known(ctx, site.target_class->Some_0@),
        reconcile::inherited_for(ctx, site.callee@, site.target_class->Some_0@) is None,
    ensures
        !reconcile::found(ctx, site).1,
        forall|r: SymbolRow| #[trigger]
            reconcile::found(ctx, site).0.contains(r) <==> ctx.symbols().contains(r) && r.name@
                == site.callee@,
{
    let c = site.target_class->Some_0@;
    lemma_own(ctx, site, c);
    lemma_class_known(ctx, c);
    let p = context::named(site.callee@);
    assert forall|r: SymbolRow| #[trigger]
        reconcile::found(ctx, site).0.contains(r) <==> ctx.symbols().contains(r) && r.name@
            == site.callee@ by {
        inheritance_laws::lemma_filter_iff(ctx.symbols(), p, r);
    }
}

/// A class that no symbol bears the name of lies outside of the index: the site
/// reaches nothing, and nothing is recorded of it.
pub proof fn lemma_outside_class(ctx: ResolutionCtx, site: CallSiteRow)
    requires
        site.target_class is Some,
        !has_own(ctx, site, site.target_class->Some_0@),
        !is_class_known(ctx, site.target_class->Some_0@),
    ensures
        reconcile::verdict(ctx, site).targets.len() == 0,
        reconcile::verdict(ctx, site).overflow is None,
{
    let c = site.target_class->Some_0@;
    lemma_own(ctx, site, c);
    lemma_class_known(ctx, c);
    let none = Seq::<SymbolRow>::empty();
    assert(reconcile::found(ctx, site).0 =~= none);
    lemma_none_left(none, reconcile::speaks(ctx.language(site.from_path@)));
    lemma_none_left(none, reconcile::unwrappable(ctx.symbols()));
}

/// For a type of the caller's own file only that file counts; for an imported
/// one, a path that holds the import text with its dots read as slashes, or the
/// text as it stands behind its leading `../` and `./` steps.
#[verifier::rlimit(40)]
pub proof fn lemma_type_matches(qn: Seq<char>, a: Seq<char>, x: Seq<char>, b: Seq<char>)
    ensures
        reconcile::type_matches("resolved_same_file"@, qn, x) <==> x == qn,
        (x.len() == qn.len() && forall|i: int|
            0 <= i < qn.len() ==> #[trigger] x[i] == (if qn[i] == '.' {
                '/'
            } else {
                qn[i]
            })) ==> reconcile::type_matches("resolved_import"@, qn, a + x + b),
        x.len() > 0 && !text::begins_with(x, "./"@) && !text::begins_with(x, "../"@) ==> {
            &&& qn == x ==> reconcile::type_matches("resolved_import"@, qn, a + x + b)
            &&& qn == "./"@ + x ==> reconcile::type_matches("resolved_import"@, qn, a + x + b)
            &&& qn == "../"@ + x ==> reconcile::type_matches("resolved_import"@, qn, a + x + b)
        },
        forall|kind: Seq<char>|
            kind != "resolved_same_file"@ && kind != "resolved_import"@
                ==> !#[trigger] reconcile::type_matches(kind, qn, x),
{
    reveal_strlit("resolved_same_file");
    reveal_strlit("resolved_import");
    assert("resolved_same_file"@.len() != "resolved_import"@.len());
    reveal_strlit("./");
    reveal_strlit("../");
    reveal_with_fuel(text::without_leading, 3);
    let path = a + x + b;
    assert(path.subrange(a.len() as int, a.len() as int + x.len()) =~= x);
    assert(text::stands_at(path, x, a.len() as int));
    if x.len() == qn.len() && forall|i: int|
        0 <= i < qn.len() ==> #[trigger] x[i] == (if qn[i] == '.' {
            '/'
        } else {
            qn[i]
        }) {
        assert(text::swapped(qn, '.', '/') =~= x);
    }
    let free = !text::begins_with(x, "./"@) && !text::begins_with(x, "../"@);
    if free && qn == "./"@ + x {
        assert(qn.skip(2) =~= x);
        assert(qn.take(2) =~= "./"@);
        if text::begins_with(qn, "../"@) {
            assert(qn.take(3)[1] == qn[1]);
        }
        assert(text::without_leading(qn, "../"@) == qn);
        assert(text::without_leading(qn, "./"@) == x);
    }
    if free && qn == "../"@ + x {
        assert(qn.skip(3) =~= x);
        assert(qn.take(3) =~= "../"@);
        assert(text::without_leading(qn, "../"@) == x);
    }
}

// ---------------------------------------------------------------------------
// The candidates that can be meant
// ---------------------------------------------------------------------------

/// The symbol's last row returns an `Option` or a `Result`.
pub open spec fn can_unwrap(symbols: Seq<SymbolRow>, r: SymbolRow) -> bool {
    exists|j: int| #[trigger]
        inheritance_laws::is_last(symbols, j, r.qualified_name@)
            && reconcile::returns_option_or_result(symbols[j].signature@)
}

/// The row at `j` is the last of the symbol that has an arity.
pub open spec fn last_counted(symbols: Seq<SymbolRow>, j: int, q: Seq<char>) -> bool {
    &&& 0 <= j < symbols.len()
    &&& symbols[j].qualified_name@ == q
    &&& symbols[j].arity is Some
    &&& forall|k: int|
        j < k < symbols.len() ==> !((#[trigger] symbols[k]).qualified_name@ == q
            && symbols[k].arity is Some)
}

/// The symbol takes `n` arguments: as many as it declares, or at least as many
/// where it takes more.
pub open spec fn takes_args(symbols: Seq<SymbolRow>, r: SymbolRow, n: i64) -> bool {
    exists|j: int| #[trigger]
        last_counted(symbols, j, r.qualified_name@) && (if symbols[j].arity_variadic {
            n >= symbols[j].arity->Some_0
        } else {
            n == symbols[j].arity->Some_0
        })
}

proof fn lemma_last_row(
    symbols: Seq<SymbolRow>,
    q: Seq<char>,
    p: spec_fn(SymbolRow) -> bool,
    both: spec_fn(SymbolRow) -> bool,
) -> (j: int)
    requires
        forall|r: SymbolRow| #[trigger] both(r) == (r.qualified_name@ == q && p(r)),
    ensures
        -1 <= j < symbols.len(),
        j >= 0 ==> context::last_of(symbols, q, p) == Some(symbols[j]) && both(symbols[j]),
        j < 0 ==> context::last_of(symbols, q, p) is None,
        forall|k: int| j < k < symbols.len() ==> !both(#[trigger] symbols[k]),
{
    context::lemma_filter_twice(symbols, context::has_qn(q), p, both);
    let j = lemma_last_index(symbols, both);
    if j >= 0 {
        inheritance_laws::lemma_last_filter(symbols, both, j);
    } else {
        lemma_none_left(symbols, both);
    }
    j
}

proof fn lemma_last_index<T>(s: Seq<T>, p: spec_fn(T) -> bool) -> (j: int)
    ensures
        -1 <= j < s.len(),
        j >= 0 ==> p(s[j]),
        forall|k: int| j < k < s.len() ==> !p(#[trigger] s[k]),
    decreases s.len(),
{
    if s.len() == 0 {
        -1
    } else if p(s.last()) {
        s.len() - 1
    } else {
        let less = s.drop_last();
        let j = lemma_last_index(less, p);
        assert forall|k: int| j < k < s.len() implies !p(#[trigger] s[k]) by {
            if k < less.len() {
                assert(!p(less[k]));
            }
        }
        j
    }
}

proof fn lemma_unwrappable(symbols: Seq<SymbolRow>, r: SymbolRow)
    ensures
        reconcile::unwrappable(symbols)(r) <==> can_unwrap(symbols, r),
{
    let q = r.qualified_name@;
    let both = |x: SymbolRow| x.qualified_name@ == q && reconcile::any_row()(x);
    let j = lemma_last_row(symbols, q, reconcile::any_row(), both);
    assert forall|k: int| j < k < symbols.len() implies (#[trigger] symbols[k]).qualified_name@
        != q by {
        assert(!both(symbols[k]));
    }
    if j >= 0 {
        assert(inheritance_laws::is_last(symbols, j, q));
    }
    if can_unwrap(symbols, r) {
        let k = choose|k: int| #[trigger]
            inheritance_laws::is_last(symbols, k, q) && reconcile::returns_option_or_result(
                symbols[k].signature@,
            );
        assert(both(symbols[k]));
        assert(k == j);
    }
}

proof fn lemma_takes(symbols: Seq<SymbolRow>, r: SymbolRow, n: i64)
    ensures
        reconcile::takes(symbols, n)(r) <==> takes_args(symbols, r, n),
{
    let q = r.qualified_name@;
    let both = |x: SymbolRow| x.qualified_name@ == q && reconcile::counted()(x);
    let j = lemma_last_row(symbols, q, reconcile::counted(), both);
    assert forall|k: int| j < k < symbols.len() implies !((#[trigger] symbols[k]).qualified_name@
        == q && symbols[k].arity is Some) by {
        assert(!both(symbols[k]));
    }
    if j >= 0 {
        assert(last_counted(symbols, j, q));
    }
    if takes_args(symbols, r, n) {
        let k = choose|k: int| #[trigger]
            last_counted(symbols, k, q) && (if symbols[k].arity_variadic {
                n >= symbols[k].arity->Some_0
            } else {
                n == symbols[k].arity->Some_0
            });
        assert(both(symbols[k]));
        assert(k == j);
    }
}

/// A candidate stands in the caller's language; where the result of the call is
/// used as only an `Option` or a `Result` can be, it returns one.
pub proof fn lemma_can_be_meant(ctx: ResolutionCtx, site: CallSiteRow, r: SymbolRow)
    ensures
        reconcile::compilable(ctx, site).contains(r) <==> (reconcile::found(ctx, site).0.contains(r)
            && ctx.language(site.from_path@) == Some(r.language@) && (
        site.looks_option_or_result_chained ==> can_unwrap(ctx.symbols(), r))),
{
    let all = reconcile::found(ctx, site).0;
    let p = reconcile::speaks(ctx.language(site.from_path@));
    inheritance_laws::lemma_filter_iff(all, p, r);
    inheritance_laws::lemma_filter_iff(all.filter(p), reconcile::unwrappable(ctx.symbols()), r);
    lemma_unwrappable(ctx.symbols(), r);
}

/// The number of arguments tells candidates apart in Elixir and Go, for a call
/// that no class accounts for.
pub open spec fn counts_args(ctx: ResolutionCtx, site: CallSiteRow) -> bool {
    &&& site.target_class is None
    &&& site.arg_count is Some
    &&& ctx.language(site.from_path@) == Some("elixir"@) || ctx.language(site.from_path@) == Some(
        "go"@,
    )
}

/// Where the number of arguments counts and fits any candidate, only those that
/// it fits are left; else all are.
pub proof fn lemma_fitting(ctx: ResolutionCtx, site: CallSiteRow, r: SymbolRow)
    ensures
        !counts_args(ctx, site) ==> (reconcile::fitting(ctx, site).contains(r)
            <==> reconcile::compilable(ctx, site).contains(r)),
        counts_args(ctx, site) ==> (reconcile::fitting(ctx, site).contains(r) <==> (
        reconcile::compilable(ctx, site).contains(r) && ((exists|x: SymbolRow| #[trigger]
            reconcile::compilable(ctx, site).contains(x) && takes_args(
                ctx.symbols(),
                x,
                site.arg_count->Some_0,
            )) ==> takes_args(ctx.symbols(), r, site.arg_count->Some_0)))),
        reconcile::arity_counts(ctx, site) <==> counts_args(ctx, site),
{
    let all = reconcile::compilable(ctx, site);
    if counts_args(ctx, site) {
        let n = site.arg_count->Some_0;
        let p = reconcile::takes(ctx.symbols(), n);
        lemma_some_left(all, p);
        inheritance_laws::lemma_filter_iff(all, p, r);
        lemma_takes(ctx.symbols(), r, n);
        if exists|x: SymbolRow| #[trigger] all.contains(x) && takes_args(ctx.symbols(), x, n) {
            let x = choose|x: SymbolRow| #[trigger]
                all.contains(x) && takes_args(ctx.symbols(), x, n);
            lemma_takes(ctx.symbols(), x, n);
            assert(all.contains(x) && p(x));
        } else if all.filter(p).len() > 0 {
            let x = choose|x: SymbolRow| #[trigger] all.contains(x) && p(x);
            lemma_takes(ctx.symbols(), x, n);
        }
    }
}

proof fn lemma_last_standing(s: Seq<char>, p: Seq<char>, n: int, i: int)
    requires
        -1 <= i < n <= s.len() || (n == 0 && i == -1),
        i >= 0 ==> text::stands_at(s, p, i),
        forall|j: int| i < j < n ==> !#[trigger] text::stands_at(s, p, j),
    ensures
        i >= 0 ==> text::last_standing(s, p, n) == Some(i),
        i < 0 ==> text::last_standing(s, p, n) is None,
    decreases n,
{
    if n > 0 && i < n - 1 {
        assert(!text::stands_at(s, p, n - 1));
        lemma_last_standing(s, p, n - 1, i);
    }
}

proof fn lemma_up_to_any(a: Seq<char>, b: Seq<char>, set: Seq<char>)
    requires
        forall|i: int| 0 <= i < a.len() ==> !set.contains(#[trigger] a[i]),
        b.len() > 0 ==> set.contains(b[0]),
    ensures
        text::up_to_any(a + b, set) == a,
    decreases a.len(),
{
    let s = a + b;
    if a.len() == 0 {
        assert(s =~= b);
        assert(text::up_to_any(s, set) =~= a);
    } else {
        assert(s[0] == a[0]);
        assert(!set.contains(a[0]));
        let rest = a.drop_first();
        assert(forall|i: int| 0 <= i < rest.len() ==> rest[i] == a[i + 1]);
        assert(s.drop_first() =~= rest + b);
        lemma_up_to_any(rest, b, set);
        assert(text::up_to_any(s, set) =~= a);
    }
}

/// The name of a type: no space, no bracket and no colon in it.
pub open spec fn is_type_name(n: Seq<char>) -> bool {
    n.len() > 0 && forall|i: int|
        0 <= i < n.len() ==> {
            let c = #[trigger] n[i];
            c != '<' && c != '(' && c != ':' && c != ' ' && !text::is_space(c)
        }
}

/// A signature returns an `Option` or a `Result` exactly where the type behind
/// its last arrow is called so: with or without a path before the name, and
/// whatever stands in the brackets behind it.
#[verifier::rlimit(40)]
pub proof fn lemma_return_type(
    a: Seq<char>,
    w: Seq<char>,
    q: Seq<char>,
    n: Seq<char>,
    rest: Seq<char>,
)
    requires
        crate::import_laws::all_space(w),
        is_type_name(n),
        q.len() == 0 || (is_type_name(q.take(q.len() - 2)) && q.skip(q.len() - 2) == "::"@
            && q.len() > 2),
        rest.len() == 0 || rest[0] == '<' || rest[0] == '(' || rest[0] == ' ',
        forall|i: int| !#[trigger] text::stands_at(w + q + n + rest, "->"@, i),
    ensures
        reconcile::returns_option_or_result(a + "->"@ + w + q + n + rest) <==> (n == "Option"@ || n
            == "Result"@),
{
    reveal_strlit("->");
    reveal_strlit("< (");
    reveal_strlit("::");
    let tail = w + q + n + rest;
    let sig = a + "->"@ + w + q + n + rest;
    let i = a.len() as int;
    assert(sig =~= a + "->"@ + tail);
    assert(sig.subrange(i, i + 2) =~= "->"@);
    assert forall|j: int| i < j < sig.len() implies !#[trigger] text::stands_at(sig, "->"@, j) by {
        if text::stands_at(sig, "->"@, j) {
            let x = sig.subrange(j, j + 2);
            assert(x[0] == sig[j] && x[1] == sig[j + 1]);
            if j == i + 1 {
                assert(sig[j] == '>');
            } else {
                assert(tail.subrange(j - i - 2, j - i) =~= x);
                assert(text::stands_at(tail, "->"@, j - i - 2));
            }
        }
    }
    lemma_last_standing(sig, "->"@, sig.len() as int, i);
    let base = q + n;
    assert(sig.skip(i + 2) =~= w + (base + rest));
    assert(is_type_name(n));
    assert(!text::is_space(n[0]));
    if q.len() > 0 {
        let h = q.take(q.len() - 2);
        assert(q[0] == h[0]);
        assert(!text::is_space(h[0]));
        assert((base + rest)[0] == h[0]);
    } else {
        assert((base + rest)[0] == n[0]);
    }
    crate::import_laws::lemma_trimmed_front(w, base + rest);
    let set = "< ("@;
    assert(set[0] == '<' && set[1] == ' ' && set[2] == '(');
    assert forall|k: int| 0 <= k < base.len() implies !set.contains(#[trigger] base[k]) by {
        if k >= q.len() {
            assert(base[k] == n[k - q.len()]);
        } else if k < q.len() - 2 {
            assert(base[k] == q.take(q.len() - 2)[k]);
        } else {
            assert(base[k] == q.skip(q.len() - 2)[k - (q.len() - 2)]);
            assert(base[k] == ':');
        }
    }
    lemma_up_to_any(base, rest, set);
    assert forall|j: int| q.len() - 2 < j < base.len() implies !#[trigger] text::stands_at(
        base,
        "::"@,
        j,
    ) by {
        if text::stands_at(base, "::"@, j) && j >= 0 {
            let x = base.subrange(j, j + 2);
            assert(x[1] == base[j + 1]);
            assert(base[j + 1] == n[j + 1 - q.len()]);
        }
    }
    if q.len() > 0 {
        let at = q.len() - 2;
        assert(base.subrange(at, at + 2) =~= q.skip(at));
        lemma_last_standing(base, "::"@, base.len() as int, at);
        assert(base.skip(at + 2) =~= n);
    } else {
        lemma_last_standing(base, "::"@, base.len() as int, -1);
        assert(base =~= n);
    }
}

/// A signature without an arrow returns neither.
pub proof fn lemma_no_return_type(sig: Seq<char>)
    requires
        forall|i: int| !#[trigger] text::stands_at(sig, "->"@, i),
    ensures
        !reconcile::returns_option_or_result(sig),
{
    lemma_last_standing(sig, "->"@, sig.len() as int, -1);
}

// ---------------------------------------------------------------------------
// The verdict
// ---------------------------------------------------------------------------

/// The verdict is not settled by the number of arguments.
pub open spec fn is_open(ctx: ResolutionCtx, site: CallSiteRow) -> bool {
    !counts_args(ctx, site) || reconcile::by_arity(ctx, site).len() != 1
}

/// A candidate that is left.
pub open spec fn is_left(ctx: ResolutionCtx, site: CallSiteRow, r: SymbolRow) -> bool {
    reconcile::fitting(ctx, site).contains(r)
}

pub open spec fn has_stem(r: SymbolRow, stem: Seq<char>) -> bool {
    paths::file_stem(r.path@) == Some(stem)
}

pub open spec fn in_file(site: CallSiteRow, r: SymbolRow) -> bool {
    r.path@ == site.from_path@
}

pub open spec fn in_directory(site: CallSiteRow, r: SymbolRow) -> bool {
    paths::parent_components(r.path@) == paths::parent_components(site.from_path@)
}

/// Some module that the caller's file brings into scope is declared by the
/// candidate's file.
pub open spec fn in_namespace(ctx: ResolutionCtx, site: CallSiteRow, r: SymbolRow) -> bool {
    exists|i: int|
        0 <= i < ctx.usings().len() && (#[trigger] ctx.usings()[i]).0 == site.from_path@
            && ctx.namespaces()@.contains((ctx.usings()[i].1, r.path@))
}

/// Some candidate has the stem that the source names.
pub open spec fn any_stem(ctx: ResolutionCtx, site: CallSiteRow, s: Option<String>) -> bool {
    s is Some && exists|r: SymbolRow| #[trigger]
        is_left(ctx, site, r) && has_stem(r, s->Some_0@)
}

/// Neither the imported module nor the module of a qualified call names any
/// candidate's file.
pub open spec fn goes_by_place(ctx: ResolutionCtx, site: CallSiteRow) -> bool {
    is_open(ctx, site) && !any_stem(ctx, site, site.import_segment) && !any_stem(
        ctx,
        site,
        site.module_hint,
    )
}

pub open spec fn any_in_file(ctx: ResolutionCtx, site: CallSiteRow) -> bool {
    exists|r: SymbolRow| #[trigger] is_left(ctx, site, r) && in_file(site, r)
}

pub open spec fn any_in_directory(ctx: ResolutionCtx, site: CallSiteRow) -> bool {
    exists|r: SymbolRow| #[trigger] is_left(ctx, site, r) && in_directory(site, r)
}

pub open spec fn any_in_namespace(ctx: ResolutionCtx, site: CallSiteRow) -> bool {
    exists|r: SymbolRow| #[trigger] is_left(ctx, site, r) && in_namespace(ctx, site, r)
}

pub open spec fn written_in(ctx: ResolutionCtx, site: CallSiteRow, l: Seq<char>) -> bool {
    ctx.language(site.from_path@) == Some(l)
}

proof fn lemma_open(ctx: ResolutionCtx, site: CallSiteRow)
    requires
        is_open(ctx, site),
        exists|r: SymbolRow| #[trigger] is_left(ctx, site, r),
    ensures
        reconcile::verdict(ctx, site) == reconcile::by_module(
            ctx,
            site,
            reconcile::fitting(ctx, site),
        ),
{
    let r = choose|r: SymbolRow| #[trigger] is_left(ctx, site, r);
    lemma_fitting(ctx, site, r);
    assert(reconcile::compilable(ctx, site).contains(r));
}

proof fn lemma_left_filter(
    ctx: ResolutionCtx,
    site: CallSiteRow,
    p: spec_fn(SymbolRow) -> bool,
)
    ensures
        reconcile::fitting(ctx, site).filter(p).len() > 0 <==> exists|r: SymbolRow| #[trigger]
            is_left(ctx, site, r) && p(r),
        forall|r: SymbolRow| #[trigger]
            reconcile::fitting(ctx, site).filter(p).contains(r) <==> is_left(ctx, site, r) && p(r),
{
    let t = reconcile::fitting(ctx, site);
    lemma_some_left(t, p);
    if t.filter(p).len() > 0 {
        let x = choose|x: SymbolRow| #[trigger] t.contains(x) && p(x);
        assert(is_left(ctx, site, x));
    }
    if exists|r: SymbolRow| #[trigger] is_left(ctx, site, r) && p(r) {
        let x = choose|x: SymbolRow| #[trigger] is_left(ctx, site, x) && p(x);
        assert(t.contains(x));
    }
    assert forall|r: SymbolRow| #[trigger] t.filter(p).contains(r) <==> is_left(ctx, site, r) && p(
        r,
    ) by {
        inheritance_laws::lemma_filter_iff(t, p, r);
    }
}

proof fn lemma_stem_filter(ctx: ResolutionCtx, site: CallSiteRow, s: Option<String>)
    requires
        s is Some,
    ensures
        reconcile::fitting(ctx, site).filter(reconcile::stemmed(s->Some_0@)).len() > 0
            <==> any_stem(ctx, site, s),
        forall|r: SymbolRow| #[trigger]
            reconcile::fitting(ctx, site).filter(reconcile::stemmed(s->Some_0@)).contains(r)
                <==> is_left(ctx, site, r) && has_stem(r, s->Some_0@),
{
    let p = reconcile::stemmed(s->Some_0@);
    lemma_left_filter(ctx, site, p);
    if any_stem(ctx, site, s) {
        let r = choose|r: SymbolRow| #[trigger]
            is_left(ctx, site, r) && has_stem(r, s->Some_0@);
        assert(is_left(ctx, site, r) && p(r));
    }
    if exists|r: SymbolRow| #[trigger] is_left(ctx, site, r) && p(r) {
        let r = choose|r: SymbolRow| #[trigger] is_left(ctx, site, r) && p(r);
        assert(is_left(ctx, site, r) && has_stem(r, s->Some_0@));
    }
}

/// Where the file of the module that the callee was imported from holds
/// candidates, exactly those are the targets, and nothing makes them doubtful.
pub proof fn lemma_by_import(ctx: ResolutionCtx, site: CallSiteRow)
    requires
        is_open(ctx, site),
        any_stem(ctx, site, site.import_segment),
    ensures
        forall|r: SymbolRow| #[trigger]
            reconcile::verdict(ctx, site).targets.contains(r) <==> is_left(ctx, site, r)
                && has_stem(r, site.import_segment->Some_0@),
        !reconcile::verdict(ctx, site).confirmed,
        !reconcile::verdict(ctx, site).weak,
        reconcile::verdict(ctx, site).overflow is None,
        reconcile::verdict(ctx, site).preferred is None,
{
    let x = choose|r: SymbolRow| #[trigger]
        is_left(ctx, site, r) && has_stem(r, site.import_segment->Some_0@);
    assert(is_left(ctx, site, x));
    lemma_open(ctx, site);
    lemma_stem_filter(ctx, site, site.import_segment);
}

/// Else, where the file of the module that the call is qualified with does.
pub proof fn lemma_by_hint(ctx: ResolutionCtx, site: CallSiteRow)
    requires
        is_open(ctx, site),
        !any_stem(ctx, site, site.import_segment),
        any_stem(ctx, site, site.module_hint),
    ensures
        forall|r: SymbolRow| #[trigger]
            reconcile::verdict(ctx, site).targets.contains(r) <==> is_left(ctx, site, r)
                && has_stem(r, site.module_hint->Some_0@),
        !reconcile::verdict(ctx, site).confirmed,
        !reconcile::verdict(ctx, site).weak,
        reconcile::verdict(ctx, site).overflow is None,
        reconcile::verdict(ctx, site).preferred is None,
{
    let x = choose|r: SymbolRow| #[trigger]
        is_left(ctx, site, r) && has_stem(r, site.module_hint->Some_0@);
    assert(is_left(ctx, site, x));
    lemma_open(ctx, site);
    lemma_stem_filter(ctx, site, site.module_hint);
    if site.import_segment is Some {
        lemma_stem_filter(ctx, site, site.import_segment);
    }
}

proof fn lemma_place(ctx: ResolutionCtx, site: CallSiteRow)
    requires
        goes_by_place(ctx, site),
        exists|r: SymbolRow| #[trigger] is_left(ctx, site, r),
    ensures
        reconcile::verdict(ctx, site) == reconcile::by_place(
            ctx,
            site,
            reconcile::fitting(ctx, site),
        ),
        reconcile::fitting(ctx, site).filter(reconcile::at_path(site.from_path@)).len() > 0
            <==> any_in_file(ctx, site),
        reconcile::fitting(ctx, site).filter(reconcile::beside(site.from_path@)).len() > 0
            <==> any_in_directory(ctx, site),
        reconcile::fitting(ctx, site).filter(reconcile::brought_in(ctx, site.from_path@)).len() > 0
            <==> any_in_namespace(ctx, site),
        forall|r: SymbolRow| #[trigger]
            reconcile::fitting(ctx, site).filter(reconcile::at_path(site.from_path@)).contains(r)
                <==> is_left(ctx, site, r) && in_file(site, r),
        forall|r: SymbolRow| #[trigger]
            reconcile::fitting(ctx, site).filter(reconcile::beside(site.from_path@)).contains(r)
                <==> is_left(ctx, site, r) && in_directory(site, r),
        forall|r: SymbolRow| #[trigger]
            reconcile::fitting(ctx, site).filter(
                reconcile::brought_in(ctx, site.from_path@),
            ).contains(r) <==> is_left(ctx, site, r) && in_namespace(ctx, site, r),
{
    lemma_open(ctx, site);
    if site.import_segment is Some {
        lemma_stem_filter(ctx, site, site.import_segment);
    }
    if site.module_hint is Some {
        lemma_stem_filter(ctx, site, site.module_hint);
    }
    let a = reconcile::at_path(site.from_path@);
    let b = reconcile::beside(site.from_path@);
    let c = reconcile::brought_in(ctx, site.from_path@);
    lemma_left_filter(ctx, site, a);
    lemma_left_filter(ctx, site, b);
    lemma_left_filter(ctx, site, c);
    assert forall|r: SymbolRow| #[trigger] in_namespace(ctx, site, r) <==> c(r) by {
        if in_namespace(ctx, site, r) {
            let i = choose|i: int|
                0 <= i < ctx.usings().len() && (#[trigger] ctx.usings()[i]).0 == site.from_path@
                    && ctx.namespaces()@.contains((ctx.usings()[i].1, r.path@));
            assert(ctx.namespaces().declares(ctx.usings()[i].1, r.path@));
        }
    }
    assert forall|r: SymbolRow| #[trigger] is_left(ctx, site, r) implies (a(r) <==> in_file(
        site,
        r,
    )) && (b(r) <==> in_directory(site, r)) && (c(r) <==> in_namespace(ctx, site, r)) by {}
}

/// Candidates of the caller's own file win over all others.
pub proof fn lemma_own_file_wins(ctx: ResolutionCtx, site: CallSiteRow)
    requires
        goes_by_place(ctx, site),
        any_in_file(ctx, site),
    ensures
        forall|r: SymbolRow| #[trigger]
            reconcile::verdict(ctx, site).targets.contains(r) <==> is_left(ctx, site, r) && in_file(
                site,
                r,
            ),
        !reconcile::verdict(ctx, site).confirmed,
        reconcile::verdict(ctx, site).weak == reconcile::is_weak(ctx, site),
        reconcile::verdict(ctx, site).overflow is None,
        reconcile::verdict(ctx, site).preferred is None,
{
    let x = choose|r: SymbolRow| #[trigger] is_left(ctx, site, r) && in_file(site, r);
    assert(is_left(ctx, site, x));
    lemma_place(ctx, site);
}

/// In Go and Java the candidates of the caller's directory come next, and rule
/// out the others.
pub proof fn lemma_own_directory_wins(ctx: ResolutionCtx, site: CallSiteRow)
    requires
        goes_by_place(ctx, site),
        !any_in_file(ctx, site),
        written_in(ctx, site, "go"@) || written_in(ctx, site, "java"@),
        any_in_directory(ctx, site),
    ensures
        forall|r: SymbolRow| #[trigger]
            reconcile::verdict(ctx, site).targets.contains(r) <==> is_left(ctx, site, r)
                && in_directory(site, r),
        !reconcile::verdict(ctx, site).confirmed,
        reconcile::verdict(ctx, site).weak == reconcile::is_weak(ctx, site),
        reconcile::verdict(ctx, site).overflow is None,
        reconcile::verdict(ctx, site).preferred is None,
{
    let x = choose|r: SymbolRow| #[trigger] is_left(ctx, site, r) && in_directory(site, r);
    assert(is_left(ctx, site, x));
    lemma_place(ctx, site);
}

/// In C and C++ they only rank before the others: every candidate is a target,
/// however many there are.
#[verifier::rlimit(40)]
pub proof fn lemma_own_directory_ranks(ctx: ResolutionCtx, site: CallSiteRow)
    requires
        goes_by_place(ctx, site),
        !any_in_file(ctx, site),
        written_in(ctx, site, "c"@) || written_in(ctx, site, "cpp"@),
        any_in_directory(ctx, site),
    ensures
        forall|r: SymbolRow| #[trigger]
            reconcile::verdict(ctx, site).targets.contains(r) <==> is_left(ctx, site, r),
        forall|r: SymbolRow|
            is_left(ctx, site, r) ==> #[trigger] reconcile::rank_of(
                reconcile::verdict(ctx, site),
                r,
            ) == (if in_directory(site, r) {
                0int
            } else {
                1int
            }),
        !reconcile::verdict(ctx, site).confirmed,
        reconcile::verdict(ctx, site).weak == reconcile::is_weak(ctx, site),
        reconcile::verdict(ctx, site).overflow is None,
{
    let x = choose|r: SymbolRow| #[trigger] is_left(ctx, site, r) && in_directory(site, r);
    assert(is_left(ctx, site, x));
    lemma_place(ctx, site);
    reveal_strlit("go");
    reveal_strlit("java");
    reveal_strlit("c");
    reveal_strlit("cpp");
    assert("go"@.len() == 2 && "java"@.len() == 4 && "c"@.len() == 1 && "cpp"@.len() == 3);
    let t = reconcile::fitting(ctx, site);
    let d = t.filter(reconcile::beside(site.from_path@));
    let v = reconcile::verdict(ctx, site);
    if d.len() == t.len() {
        lemma_full_filter(t, reconcile::beside(site.from_path@));
        assert(v.targets == t);
        assert forall|r: SymbolRow|
            is_left(ctx, site, r) implies #[trigger] reconcile::rank_of(v, r) == (if in_directory(
            site,
            r,
        ) {
            0int
        } else {
            1int
        }) by {
            assert(d.contains(r));
        }
    } else {
        assert(v.preferred == Some(d));
        assert forall|r: SymbolRow|
            is_left(ctx, site, r) implies #[trigger] reconcile::rank_of(v, r) == (if in_directory(
            site,
            r,
        ) {
            0int
        } else {
            1int
        }) by {
            lemma_rank(v, d, r);
            if in_directory(site, r) {
                assert(d.contains(r));
            } else {
                assert forall|k: int| 0 <= k < d.len() implies (#[trigger] d[k]).path@ != r.path@ by {
                    assert(d.contains(d[k]));
                    assert(in_directory(site, d[k]));
                }
            }
        }
    }
}

proof fn lemma_rank(v: Verdict, d: Seq<SymbolRow>, r: SymbolRow)
    requires
        v.preferred == Some(d),
    ensures
        d.contains(r) ==> reconcile::rank_of(v, r) == 0,
        (forall|k: int| 0 <= k < d.len() ==> (#[trigger] d[k]).path@ != r.path@)
            ==> reconcile::rank_of(v, r) == 1,
{
    if d.contains(r) {
        let k = choose|k: int| 0 <= k < d.len() && d[k] == r;
        let p = v.preferred->Some_0;
        assert(p[k] == r);
        assert(exists|m: int|
            0 <= m < p.len() && (#[trigger] p[m]).qualified_name@ == r.qualified_name@ && p[m].path@
                == r.path@);
    }
}

proof fn lemma_full_filter<T>(s: Seq<T>, p: spec_fn(T) -> bool)
    requires
        s.filter(p).len() == s.len(),
    ensures
        s.filter(p) == s,
    decreases s.len(),
{
    reveal(Seq::filter);
    if s.len() > 0 {
        let less = s.drop_last();
        lemma_filter_shorter(less, p);
        if p(s.last()) {
            lemma_full_filter(less, p);
            assert(s.filter(p) =~= s);
        }
    } else {
        assert(s.filter(p) =~= s);
    }
}

proof fn lemma_filter_shorter<T>(s: Seq<T>, p: spec_fn(T) -> bool)
    ensures
        s.filter(p).len() <= s.len(),
    decreases s.len(),
{
    reveal(Seq::filter);
    if s.len() > 0 {
        lemma_filter_shorter(s.drop_last(), p);
    }
}

/// In C# the candidates whose files declare a namespace that the caller brings
/// into scope rule out the others; a single one is confirmed by that.
pub proof fn lemma_namespace_wins(ctx: ResolutionCtx, site: CallSiteRow)
    requires
        goes_by_place(ctx, site),
        !any_in_file(ctx, site),
        written_in(ctx, site, "csharp"@),
        any_in_namespace(ctx, site),
    ensures
        forall|r: SymbolRow| #[trigger]
            reconcile::verdict(ctx, site).targets.contains(r) <==> is_left(ctx, site, r)
                && in_namespace(ctx, site, r),
        reconcile::verdict(ctx, site).confirmed <==> reconcile::verdict(ctx, site).targets.len()
            == 1,
        !reconcile::verdict(ctx, site).weak,
        reconcile::verdict(ctx, site).overflow is None,
        reconcile::verdict(ctx, site).preferred is None,
{
    let x = choose|r: SymbolRow| #[trigger] is_left(ctx, site, r) && in_namespace(ctx, site, r);
    assert(is_left(ctx, site, x));
    lemma_place(ctx, site);
    reveal_strlit("go");
    reveal_strlit("java");
    reveal_strlit("c");
    reveal_strlit("cpp");
    reveal_strlit("csharp");
    assert("csharp"@.len() == 6);
    assert("go"@.len() == 2 && "java"@.len() == 4 && "c"@.len() == 1 && "cpp"@.len() == 3);
}

/// The place of the candidates says nothing: none in the caller's file, none in
/// its directory where the language cares, none in scope in C#.
pub open spec fn is_placeless(ctx: ResolutionCtx, site: CallSiteRow) -> bool {
    &&& goes_by_place(ctx, site)
    &&& !any_in_file(ctx, site)
    &&& (written_in(ctx, site, "go"@) || written_in(ctx, site, "java"@) || written_in(
        ctx,
        site,
        "c"@,
    ) || written_in(ctx, site, "cpp"@)) ==> !any_in_directory(ctx, site)
    &&& written_in(ctx, site, "csharp"@) ==> !any_in_namespace(ctx, site)
}

/// Then up to twenty candidates are all targets; more than that give no edge,
/// and are recorded instead.
pub proof fn lemma_anywhere(ctx: ResolutionCtx, site: CallSiteRow)
    requires
        is_placeless(ctx, site),
        exists|r: SymbolRow| #[trigger] is_left(ctx, site, r),
    ensures
        reconcile::fitting(ctx, site).len() <= 20 ==> {
            let v = reconcile::verdict(ctx, site);
            &&& v.targets == reconcile::fitting(ctx, site)
            &&& !v.confirmed
            &&& v.weak == reconcile::is_weak(ctx, site)
            &&& v.overflow is None
            &&& v.preferred is None
        },
        reconcile::fitting(ctx, site).len() > 20 ==> {
            let v = reconcile::verdict(ctx, site);
            &&& v.targets.len() == 0
            &&& v.overflow == Some(reconcile::fitting(ctx, site))
        },
{
    lemma_place(ctx, site);
}

/// Without a candidate that can be meant there is no target and no record.
pub proof fn lemma_nothing_meant(ctx: ResolutionCtx, site: CallSiteRow)
    requires
        forall|r: SymbolRow| !#[trigger] reconcile::compilable(ctx, site).contains(r),
    ensures
        reconcile::verdict(ctx, site).targets.len() == 0,
        reconcile::verdict(ctx, site).overflow is None,
{
    let t = reconcile::compilable(ctx, site);
    if t.len() > 0 {
        assert(t.contains(t[0]));
    }
}

/// A target that only its name speaks for is weak: the call is made on a
/// receiver other than `self` and `this`, and no class accounts for it.
pub proof fn lemma_weak(ctx: ResolutionCtx, site: CallSiteRow)
    ensures
        reconcile::is_weak(ctx, site) <==> (site.receiver is Some && site.receiver->Some_0@
            != "self"@ && site.receiver->Some_0@ != "this"@ && !reconcile::found(ctx, site).1),
{
}

/// The row at `k` is the only symbol of the callee's name in the caller's
/// language.
pub open spec fn is_only_candidate(ctx: ResolutionCtx, site: CallSiteRow, k: int) -> bool {
    let s = ctx.symbols();
    &&& 0 <= k < s.len()
    &&& s[k].name@ == site.callee@
    &&& ctx.language(site.from_path@) == Some(s[k].language@)
    &&& forall|j: int|
        0 <= j < s.len() && j != k ==> !((#[trigger] s[j]).name@ == site.callee@ && ctx.language(
            site.from_path@,
        ) == Some(s[j].language@))
}

proof fn lemma_compilable_one(ctx: ResolutionCtx, site: CallSiteRow, k: int)
    requires
        site.target_class is None,
        !site.looks_option_or_result_chained,
        is_only_candidate(ctx, site, k),
    ensures
        reconcile::compilable(ctx, site) == seq![ctx.symbols()[k]],
{
    let s = ctx.symbols();
    let p = context::named(site.callee@);
    let q = reconcile::speaks(ctx.language(site.from_path@));
    let both = |r: SymbolRow| p(r) && q(r);
    context::lemma_filter_twice(s, p, q, both);
    assert forall|j: int| 0 <= j < s.len() && j != k implies !both(#[trigger] s[j]) by {}
    lemma_one_left(s, both, k);
}

proof fn lemma_filter_one(x: SymbolRow, p: spec_fn(SymbolRow) -> bool)
    ensures
        p(x) ==> seq![x].filter(p) == seq![x],
        !p(x) ==> seq![x].filter(p).len() == 0,
{
    let s = seq![x];
    if p(x) {
        lemma_all_left(s, p);
    } else {
        lemma_none_left(s, p);
    }
}

/// A call without a class that only one symbol can be meant by reaches that
/// symbol, wherever it stands, and nothing else.
pub proof fn lemma_single_candidate(ctx: ResolutionCtx, site: CallSiteRow, k: int)
    requires
        site.target_class is None,
        !site.looks_option_or_result_chained,
        is_only_candidate(ctx, site, k),
    ensures
        reconcile::verdict(ctx, site).targets == seq![ctx.symbols()[k]],
        reconcile::verdict(ctx, site).overflow is None,
        reconcile::rank_of(reconcile::verdict(ctx, site), ctx.symbols()[k]) == 0,
{
    let x = ctx.symbols()[k];
    let one = seq![x];
    lemma_compilable_one(ctx, site, k);
    if site.arg_count is Some {
        lemma_filter_one(x, reconcile::takes(ctx.symbols(), site.arg_count->Some_0));
    }
    assert(reconcile::fitting(ctx, site) == one);
    if site.import_segment is Some {
        lemma_filter_one(x, reconcile::stemmed(site.import_segment->Some_0@));
    }
    if site.module_hint is Some {
        lemma_filter_one(x, reconcile::stemmed(site.module_hint->Some_0@));
    }
    lemma_filter_one(x, reconcile::at_path(site.from_path@));
    lemma_filter_one(x, reconcile::beside(site.from_path@));
    lemma_filter_one(x, reconcile::brought_in(ctx, site.from_path@));
}

/// In Elixir and Go a single candidate that takes the number of arguments of the
/// call is confirmed by it.
pub proof fn lemma_arity_confirms(ctx: ResolutionCtx, site: CallSiteRow, k: int)
    requires
        counts_args(ctx, site),
        !site.looks_option_or_result_chained,
        0 <= k < ctx.symbols().len(),
        arity_hit(ctx, site, k),
        forall|j: int| 0 <= j < ctx.symbols().len() && #[trigger] arity_hit(ctx, site, j) ==> j == k,
    ensures
        reconcile::verdict(ctx, site).targets == seq![ctx.symbols()[k]],
        reconcile::verdict(ctx, site).confirmed,
        !reconcile::verdict(ctx, site).weak,
        reconcile::verdict(ctx, site).overflow is None,
        reconcile::effective(site, reconcile::verdict(ctx, site)) == "resolved"@,
{
    let s = ctx.symbols();
    let n = site.arg_count->Some_0;
    let p = context::named(site.callee@);
    let q = reconcile::speaks(ctx.language(site.from_path@));
    let t = reconcile::takes(s, n);
    let both = |r: SymbolRow| p(r) && q(r);
    let all = |r: SymbolRow| both(r) && t(r);
    context::lemma_filter_twice(s, p, q, both);
    context::lemma_filter_twice(s, both, t, all);
    lemma_takes(s, s[k], n);
    assert forall|j: int| 0 <= j < s.len() && j != k implies !all(#[trigger] s[j]) by {
        lemma_takes(s, s[j], n);
        assert(!arity_hit(ctx, site, j));
    }
    lemma_one_left(s, all, k);
    lemma_fitting(ctx, site, s[k]);
    lemma_takes(s, s[k], n);
    let c = reconcile::compilable(ctx, site);
    inheritance_laws::lemma_filter_iff(s, both, s[k]);
    assert(s.contains(s[k]));
    assert(c.contains(s[k]));
}

/// The row at `j` has the callee's name, stands in the caller's language and
/// takes the number of arguments of the call.
pub open spec fn arity_hit(ctx: ResolutionCtx, site: CallSiteRow, j: int) -> bool {
    let r = ctx.symbols()[j];
    &&& r.name@ == site.callee@
    &&& ctx.language(site.from_path@) == Some(r.language@)
    &&& takes_args(ctx.symbols(), r, site.arg_count->Some_0)
}

// ---------------------------------------------------------------------------
// The edges
// ---------------------------------------------------------------------------

/// What the edge from a site to a target says: both ends with their files, the
/// site and its line, its kind; more than one target is ambiguous, a confirmed
/// one is resolved, a weak one is ambiguous, and any other keeps the confidence
/// of the site.
pub proof fn lemma_edge_says(site: CallSiteRow, v: Verdict, r: SymbolRow)
    ensures
        ({
            let e = reconcile::edge_to(site, v, r);
            &&& e.from_symbol == site.enclosing_qn@
            &&& e.to_symbol == r.qualified_name@
            &&& e.from_path == Some(site.from_path@)
            &&& e.to_path == Some(r.path@)
            &&& e.call_site_id == Some(site.id)
            &&& e.edge_kind == site.edge_kind@
            &&& site.line is None ==> e.call_site_line is None
            &&& site.line matches Some(l) ==> (i32::MIN <= l <= i32::MAX ==> (e.call_site_line
                matches Some(x) && x == l))
            &&& v.targets.len() > 1 ==> e.edge_confidence == "ambiguous"@
            &&& v.targets.len() <= 1 && v.confirmed ==> e.edge_confidence == "resolved"@
            &&& v.targets.len() <= 1 && !v.confirmed && v.weak ==> e.edge_confidence
                == "ambiguous"@
            &&& v.targets.len() <= 1 && !v.confirmed && !v.weak ==> e.edge_confidence
                == site.confidence@
            &&& v.preferred is None ==> e.candidate_rank == 0
        }),
{
}

/// Some edge runs from the site to the symbol, with the site's kind.
pub open spec fn has_edge(
    edges: Seq<CallEdgeView>,
    id: i64,
    to: Seq<char>,
    kind: Seq<char>,
) -> bool {
    exists|m: int|
        0 <= m < edges.len() && (#[trigger] edges[m]).call_site_id == Some(id)
            && edges[m].to_symbol == to && edges[m].edge_kind == kind
}

proof fn lemma_add_targets_keeps(
    acc: Seq<CallEdgeView>,
    site: CallSiteRow,
    v: Verdict,
    n: nat,
)
    requires
        n <= v.targets.len(),
    ensures
        reconcile::add_targets(acc, site, v, n).len() >= acc.len(),
        forall|m: int|
            0 <= m < acc.len() ==> #[trigger] reconcile::add_targets(acc, site, v, n)[m] == acc[m],
        forall|t: int|
            0 <= t < n ==> has_edge(
                reconcile::add_targets(acc, site, v, n),
                site.id,
                (#[trigger] v.targets[t]).qualified_name@,
                site.edge_kind@,
            ),
    decreases n,
{
    if n > 0 {
        let less = (n - 1) as nat;
        lemma_add_targets_keeps(acc, site, v, less);
        let init = reconcile::add_targets(acc, site, v, less);
        let all = reconcile::add_targets(acc, site, v, n);
        let e = reconcile::edge_to(site, v, v.targets[n - 1]);
        assert(forall|m: int| 0 <= m < init.len() ==> #[trigger] all[m] == init[m]);
        assert forall|t: int| 0 <= t < n implies has_edge(
            all,
            site.id,
            (#[trigger] v.targets[t]).qualified_name@,
            site.edge_kind@,
        ) by {
            if t < less {
                let q = v.targets[t].qualified_name@;
                assert(has_edge(init, site.id, q, site.edge_kind@));
                let m = choose|m: int|
                    0 <= m < init.len() && (#[trigger] init[m]).call_site_id == Some(site.id)
                        && init[m].to_symbol == q && init[m].edge_kind == site.edge_kind@;
                assert(all[m] == init[m]);
            } else if reconcile::has_key(init, e) {
                let m = choose|m: int|
                    0 <= m < init.len() && reconcile::same_key(#[trigger] init[m], e);
                assert(all[m].call_site_id == Some(site.id));
            } else {
                assert(all[all.len() - 1] == e);
                assert(all[all.len() - 1].call_site_id == Some(site.id));
            }
        }
    }
}

/// Every target of every site has its edge.
pub proof fn lemma_edges_complete(
    ctx: ResolutionCtx,
    sites: Seq<CallSiteRow>,
    s: int,
    t: int,
)
    requires
        0 <= s < sites.len(),
        0 <= t < reconcile::verdict(ctx, sites[s]).targets.len(),
    ensures
        has_edge(
            reconcile::edges_of(ctx, sites),
            sites[s].id,
            reconcile::verdict(ctx, sites[s]).targets[t].qualified_name@,
            sites[s].edge_kind@,
        ),
    decreases sites.len(),
{
    let less = sites.drop_last();
    let init = reconcile::edges_of(ctx, less);
    let all = reconcile::edges_of(ctx, sites);
    let last = sites.last();
    let v = reconcile::verdict(ctx, last);
    lemma_add_targets_keeps(init, last, v, v.targets.len());
    if s < less.len() {
        assert(less[s] == sites[s]);
        lemma_edges_complete(ctx, less, s, t);
        let q = reconcile::verdict(ctx, sites[s]).targets[t].qualified_name@;
        let m = choose|m: int|
            0 <= m < init.len() && (#[trigger] init[m]).call_site_id == Some(sites[s].id)
                && init[m].to_symbol == q && init[m].edge_kind == sites[s].edge_kind@;
        assert(all[m] == init[m]);
    } else {
        assert(v.targets[t] == reconcile::verdict(ctx, sites[s]).targets[t]);
    }
}

/// Every site with too many candidates has a record that lists them, with the
/// callee and the reason.
pub proof fn lemma_record_of(
    ctx: ResolutionCtx,
    sites: Seq<CallSiteRow>,
    s: int,
) -> (m: int)
    requires
        0 <= s < sites.len(),
        reconcile::verdict(ctx, sites[s]).overflow is Some,
    ensures
        0 <= m < reconcile::groups_of(ctx, sites).len(),
        ({
            let g = reconcile::groups_of(ctx, sites)[m];
            let c = reconcile::verdict(ctx, sites[s]).overflow->Some_0;
            &&& g.call_site_id == sites[s].id
            &&& g.from_path == sites[s].from_path@
            &&& g.candidate_group_key == sites[s].callee@
            &&& g.candidate_count == c.len()
            &&& g.candidates.len() == c.len()
            &&& forall|i: int|
                0 <= i < c.len() ==> #[trigger] g.candidates[i] == (
                    c[i].qualified_name@,
                    c[i].path@,
                )
            &&& g.reason == "unscoped_candidates_exceeded_max_callee_candidates"@
        }),
    decreases sites.len(),
{
    let less = sites.drop_last();
    let init = reconcile::groups_of(ctx, less);
    if s < less.len() {
        assert(less[s] == sites[s]);
        let m = lemma_record_of(ctx, less, s);
        assert(reconcile::groups_of(ctx, sites)[m] == init[m]);
        m
    } else {
        init.len() as int
    }
}

/// There is no record but of such a site.
pub proof fn lemma_record_from(
    ctx: ResolutionCtx,
    sites: Seq<CallSiteRow>,
    m: int,
) -> (s: int)
    requires
        0 <= m < reconcile::groups_of(ctx, sites).len(),
    ensures
        0 <= s < sites.len(),
        reconcile::verdict(ctx, sites[s]).overflow is Some,
        reconcile::groups_of(ctx, sites)[m].call_site_id == sites[s].id,
        reconcile::groups_of(ctx, sites)[m].candidate_group_key == sites[s].callee@,
    decreases sites.len(),
{
    let less = sites.drop_last();
    let init = reconcile::groups_of(ctx, less);
    if m < init.len() {
        let s = lemma_record_from(ctx, less, m);
        assert(reconcile::groups_of(ctx, sites)[m] == init[m]);
        assert(less[s] == sites[s]);
        s
    } else {
        sites.len() - 1
    }
}

} // verus!
