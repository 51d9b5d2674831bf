//! From call sites to call edges: the candidates of every site are narrowed
//! by what the site and the index say, and the survivors become edges.

use crate::context;
use crate::context::{ResolutionCtx, SymbolRow};
use crate::edges;
use crate::edges::{CallEdge, CallEdgeView};
use crate::names;
use crate::paths;
use crate::text;
use crate::types::EdgeConfidence;
use std::collections::HashMap;
use vstd::prelude::*;

verus! {

/// How many same-named symbols a call may reach before it is recorded as too
/// ambiguous instead.
pub const MAX_CALLEE_CANDIDATES: usize = 20;

/// One stored call site.
pub struct CallSiteRow {
    pub id: i64,
    pub from_path: String,
    pub enclosing_qn: String,
    pub callee: String,
    pub line: Option<i64>,
    /// The confidence the site was recorded with.
    pub confidence: String,
    /// What stands before the callee, for any but a bare name.
    pub receiver: Option<String>,
    /// The class of the receiver, where it is known.
    pub target_class: Option<String>,
    /// Is the result used as only an `Option` or a `Result` can be?
    pub looks_option_or_result_chained: bool,
    /// The module segment of a qualified call.
    pub module_hint: Option<String>,
    pub edge_kind: String,
    pub arg_count: Option<i64>,
    /// The last segment of the module that the callee was imported from.
    pub import_segment: Option<String>,
    /// How the receiver's class was found, and the text that says which one.
    pub target_type_kind: Option<String>,
    pub target_type_qn: Option<String>,
}

/// A site whose candidates stayed too many to pick from.
pub struct AmbiguityGroup {
    pub call_site_id: i64,
    pub from_path: String,
    pub candidate_group_key: String,
    pub candidate_count: usize,
    /// The surviving candidates, each a qualified name and a path.
    pub candidates: Vec<(String, String)>,
    pub reason: String,
}

pub struct AmbiguityGroupView {
    pub call_site_id: i64,
    pub from_path: Seq<char>,
    pub candidate_group_key: Seq<char>,
    pub candidate_count: int,
    pub candidates: Seq<(Seq<char>, Seq<char>)>,
    pub reason: Seq<char>,
}

pub open spec fn pairs(v: Seq<(String, String)>) -> Seq<(Seq<char>, Seq<char>)> {
    v.map_values(|p: (String, String)| (p.0@, p.1@))
}

impl View for AmbiguityGroup {
    type V = AmbiguityGroupView;

    open spec fn view(&self) -> AmbiguityGroupView {
        AmbiguityGroupView {
            call_site_id: self.call_site_id,
            from_path: self.from_path@,
            candidate_group_key: self.candidate_group_key@,
            candidate_count: self.candidate_count as int,
            candidates: pairs(self.candidates@),
            reason: self.reason@,
        }
    }
}

// ---------------------------------------------------------------------------
// Tests on one candidate
// ---------------------------------------------------------------------------

/// Could a file at `path` declare the type that `qn` refers to? For a type of
/// the caller's own file the path must be that file; for an imported one the
/// path must hold the import text, with its dots read as slashes or with its
/// leading `../` and `./` steps taken off.
pub open spec fn type_matches(kind: Seq<char>, qn: Seq<char>, path: Seq<char>) -> bool {
    if kind == "resolved_same_file"@ {
        path == qn
    } else if kind == "resolved_import"@ {
        let plain = text::without_leading(text::without_leading(qn, "../"@), "./"@);
        text::occurs_in(path, text::swapped(qn, '.', '/')) || (plain.len() > 0 && text::occurs_in(
            path,
            plain,
        ))
    } else {
        false
    }
}

pub fn type_qn_matches_path(kind: &str, qn: &str, path: &str) -> (r: bool)
    ensures
        r == type_matches(kind@, qn@, path@),
{
    if text::str_eq(kind, "resolved_same_file") {
        text::str_eq(path, qn)
    } else if text::str_eq(kind, "resolved_import") {
        proof {
            reveal_strlit("../");
            reveal_strlit("./");
        }
        let q = text::chars_of(qn);
        let p = text::chars_of(path);
        let slashed = text::replace_char(q.as_slice(), '.', '/');
        let plain = text::trim_start_matches(
            text::trim_start_matches(q.as_slice(), "../"),
            "./",
        );
        text::contains(p.as_slice(), slashed.as_slice()) || (plain.len() > 0 && text::contains(
            p.as_slice(),
            plain,
        ))
    } else {
        false
    }
}

/// Is the return type of a signature an `Option` or a `Result`? The return
/// type follows the last arrow; its name runs to the first `<`, space or `(`,
/// and only the segment after the last `::` counts.
pub open spec fn returns_option_or_result(sig: Seq<char>) -> bool {
    match text::last_standing(sig, "->"@, sig.len() as int) {
        None => false,
        Some(i) => {
            let ret = text::trimmed_front(sig.skip(i + 2));
            let base = text::after_last(text::up_to_any(ret, "< ("@), "::"@);
            base == "Option"@ || base == "Result"@
        },
    }
}

pub fn signature_returns_option_or_result(sig: &str) -> (r: bool)
    ensures
        r == returns_option_or_result(sig@),
{
    let s = text::chars_of(sig);
    let s = s.as_slice();
    match text::seek_last(s, "->") {
        None => false,
        Some(i) => {
            proof {
                reveal_strlit("->");
            }
            assert(i + 2 <= s.len());
            let tail = vstd::slice::slice_subrange(s, i + 2, s.len());
            assert(tail@ =~= s@.skip(i + 2));
            let ret = text::trim_start(tail);
            let base = text::after_last_text(text::before_any(ret, "< ("), "::");
            text::is(base, "Option") || text::is(base, "Result")
        },
    }
}

pub open spec fn qualifies(kind: Seq<char>, qn: Seq<char>) -> spec_fn(SymbolRow) -> bool {
    |r: SymbolRow| type_matches(kind, qn, r.path@)
}

pub open spec fn speaks(language: Option<Seq<char>>) -> spec_fn(SymbolRow) -> bool {
    |r: SymbolRow| language == Some(r.language@)
}

pub open spec fn any_row() -> spec_fn(SymbolRow) -> bool {
    |r: SymbolRow| true
}

pub open spec fn counted() -> spec_fn(SymbolRow) -> bool {
    |r: SymbolRow| r.arity is Some
}

/// Candidates whose recorded signature returns an `Option` or a `Result`.
pub open spec fn unwrappable(symbols: Seq<SymbolRow>) -> spec_fn(SymbolRow) -> bool {
    |r: SymbolRow|
        match context::last_of(symbols, r.qualified_name@, any_row()) {
            Some(s) => returns_option_or_result(s.signature@),
            None => false,
        }
}

/// Candidates whose recorded arity takes `n` arguments.
pub open spec fn takes(symbols: Seq<SymbolRow>, n: i64) -> spec_fn(SymbolRow) -> bool {
    |r: SymbolRow|
        match context::last_of(symbols, r.qualified_name@, counted()) {
            Some(s) => if s.arity_variadic {
                n >= s.arity->0
            } else {
                n == s.arity->0
            },
            None => false,
        }
}

pub open spec fn stemmed(stem: Seq<char>) -> spec_fn(SymbolRow) -> bool {
    |r: SymbolRow| paths::file_stem(r.path@) == Some(stem)
}

pub open spec fn at_path(path: Seq<char>) -> spec_fn(SymbolRow) -> bool {
    |r: SymbolRow| r.path@ == path
}

pub open spec fn beside(path: Seq<char>) -> spec_fn(SymbolRow) -> bool {
    |r: SymbolRow| paths::parent_components(r.path@) == paths::parent_components(path)
}

pub open spec fn brought_in(ctx: ResolutionCtx, path: Seq<char>) -> spec_fn(SymbolRow) -> bool {
    |r: SymbolRow| ctx.in_scope(path, r.path@)
}

// ---------------------------------------------------------------------------
// Inherited methods
// ---------------------------------------------------------------------------

/// Two rows that stand for one candidate.
pub open spec fn same_candidate(a: SymbolRow, b: SymbolRow) -> bool {
    a.qualified_name@ == b.qualified_name@ && a.path@ == b.path@ && a.language@ == b.language@
}

/// `rows` without a candidate that came before.
pub open spec fn distinct(rows: Seq<SymbolRow>) -> Seq<SymbolRow>
    decreases rows.len(),
{
    if rows.len() == 0 {
        seq![]
    } else {
        let init = distinct(rows.drop_last());
        if exists|k: int| 0 <= k < init.len() && same_candidate(#[trigger] init[k], rows.last()) {
            init
        } else {
            init.push(rows.last())
        }
    }
}

/// Everything called `callee` that a class of `level` declares.
pub open spec fn declared_at(
    symbols: Seq<SymbolRow>,
    callee: Seq<char>,
    level: Seq<Seq<char>>,
) -> Seq<SymbolRow>
    decreases level.len(),
{
    if level.len() == 0 {
        seq![]
    } else {
        declared_at(symbols, callee, level.drop_last()) + symbols.filter(
            context::member(callee, level.last()),
        )
    }
}

/// The one declaration of `callee` at the nearest distance that has any: none
/// where no ancestor declares it, and none where two at that distance do.
pub open spec fn inherited(
    symbols: Seq<SymbolRow>,
    callee: Seq<char>,
    levels: Seq<Seq<Seq<char>>>,
) -> Option<Seq<SymbolRow>>
    decreases levels.len(),
{
    if levels.len() == 0 {
        None
    } else {
        let hits = distinct(declared_at(symbols, callee, levels[0]));
        if hits.len() == 1 {
            Some(hits)
        } else if hits.len() > 1 {
            None
        } else {
            inherited(symbols, callee, levels.drop_first())
        }
    }
}

/// What `callee` means for a class that does not declare it itself.
pub open spec fn inherited_for(
    ctx: ResolutionCtx,
    callee: Seq<char>,
    cls: Seq<char>,
) -> Option<Seq<SymbolRow>> {
    match ctx.ancestors_of(cls) {
        Some(levels) => inherited(ctx.symbols(), callee, levels),
        None => None,
    }
}

fn is_same_candidate(a: &SymbolRow, b: &SymbolRow) -> (r: bool)
    ensures
        r == same_candidate(*a, *b),
{
    text::str_eq(a.qualified_name.as_str(), b.qualified_name.as_str()) && text::str_eq(
        a.path.as_str(),
        b.path.as_str(),
    ) && text::str_eq(a.language.as_str(), b.language.as_str())
}

/// The distinct declarations of `callee` among the classes of `level`.
fn declarations_at(ctx: &ResolutionCtx, callee: &str, level: &Vec<String>) -> (r: Vec<usize>)
    requires
        ctx.wf(),
    ensures
        names::within(r@, ctx.symbols().len()),
        context::rows(ctx.symbols(), r@) == distinct(
            declared_at(ctx.symbols(), callee@, text::texts(level@)),
        ),
{
    let ghost symbols = ctx.symbols();
    let mut out: Vec<usize> = Vec::new();
    let mut i: usize = 0;
    assert(context::rows(symbols, out@) =~= distinct(
        declared_at(symbols, callee@, text::texts(level@).take(0)),
    ));
    while i < level.len()
        invariant
            i <= level@.len(),
            ctx.wf(),
            symbols == ctx.symbols(),
            names::within(out@, symbols.len()),
            context::rows(symbols, out@) == distinct(
                declared_at(symbols, callee@, text::texts(level@).take(i as int)),
            ),
        decreases level@.len() - i,
    {
        let hits = ctx.find_member(callee, level[i].as_str());
        let ghost base = declared_at(symbols, callee@, text::texts(level@).take(i as int));
        let ghost add = context::rows(symbols, hits@);
        let mut j: usize = 0;
        assert(base + add.take(0) =~= base);
        while j < hits.len()
            invariant
                j <= hits@.len(),
                symbols == ctx.symbols(),
                add == context::rows(symbols, hits@),
                names::within(hits@, symbols.len()),
                names::within(out@, symbols.len()),
                context::rows(symbols, out@) == distinct(base + add.take(j as int)),
            decreases hits@.len() - j,
        {
            let h = hits[j];
            let ghost init = distinct(base + add.take(j as int));
            let ghost row = symbols[h as int];
            proof {
                assert(add[j as int] == row);
                assert((base + add.take(j + 1)).drop_last() =~= base + add.take(j as int));
            }
            let mut known: bool = false;
            let mut k: usize = 0;
            while k < out.len()
                invariant
                    k <= out@.len(),
                    symbols == ctx.symbols(),
                    h < symbols.len(),
                    row == symbols[h as int],
                    names::within(out@, symbols.len()),
                    init == context::rows(symbols, out@),
                    known == exists|x: int|
                        0 <= x < k && same_candidate(#[trigger] init[x], row),
                decreases out@.len() - k,
            {
                assert(init[k as int] == symbols[out@[k as int] as int]);
                if is_same_candidate(ctx.symbol(out[k]), ctx.symbol(h)) {
                    known = true;
                }
                k += 1;
            }
            assert(init.len() == out@.len());
            if !known {
                let ghost before = out@;
                out.push(h);
                assert(context::rows(symbols, out@) =~= context::rows(symbols, before).push(row));
            }
            j += 1;
        }
        proof {
            assert(add.take(add.len() as int) =~= add);
            assert(text::texts(level@).take(i + 1).drop_last() =~= text::texts(level@).take(
                i as int,
            ));
            assert(text::texts(level@).take(i + 1).last() == level@[i as int]@);
        }
        i += 1;
    }
    assert(text::texts(level@).take(level@.len() as int) =~= text::texts(level@));
    out
}

/// What `callee` means for a class that does not declare it itself.
pub fn resolve_via_inheritance_closure(ctx: &ResolutionCtx, callee: &str, cls: &str) -> (r: Option<
    Vec<usize>,
>)
    requires
        ctx.wf(),
    ensures
        match r {
            Some(v) => names::within(v@, ctx.symbols().len()) && inherited_for(
                *ctx,
                callee@,
                cls@,
            ) == Some(context::rows(ctx.symbols(), v@)),
            None => inherited_for(*ctx, callee@, cls@) is None,
        },
{
    let levels = match ctx.ancestor_levels(cls) {
        None => {
            return None;
        },
        Some(l) => l,
    };
    let ghost all = context::deep(levels@);
    let mut i: usize = 0;
    assert(all.skip(0) =~= all);
    while i < levels.len()
        invariant
            i <= levels@.len(),
            ctx.wf(),
            all == context::deep(levels@),
            inherited(ctx.symbols(), callee@, all.skip(i as int)) == inherited(
                ctx.symbols(),
                callee@,
                all,
            ),
            ctx.ancestors_of(cls@) == Some(all),
        decreases levels@.len() - i,
    {
        let hits = declarations_at(ctx, callee, &levels[i]);
        proof {
            assert(all.skip(i as int)[0] == text::texts(levels@[i as int]@));
            assert(all.skip(i as int).drop_first() =~= all.skip(i + 1));
            assert(context::rows(ctx.symbols(), hits@).len() == hits@.len());
        }
        if hits.len() == 1 {
            return Some(hits);
        }
        if hits.len() > 1 {
            return None;
        }
        i += 1;
    }
    None
}

// ---------------------------------------------------------------------------
// The verdict on one site
// ---------------------------------------------------------------------------

/// What the narrowing of one site's candidates comes to.
pub struct Verdict {
    /// The symbols that the site gets an edge to.
    pub targets: Seq<SymbolRow>,
    /// A declaration confirms the single target.
    pub confirmed: bool,
    /// The target was found by its name alone, on a receiver of unknown type.
    pub weak: bool,
    /// The candidates, where they stayed too many to pick from.
    pub overflow: Option<Seq<SymbolRow>>,
    /// The targets to rank first, where some are to be ranked behind.
    pub preferred: Option<Seq<SymbolRow>>,
}

pub open spec fn nothing() -> Verdict {
    Verdict { targets: seq![], confirmed: false, weak: false, overflow: None, preferred: None }
}

pub open spec fn settled(targets: Seq<SymbolRow>, confirmed: bool, weak: bool) -> Verdict {
    Verdict { targets, confirmed, weak, overflow: None, preferred: None }
}

/// Keep `narrowed` where it has anything, else `all`.
pub open spec fn or_all(narrowed: Seq<SymbolRow>, all: Seq<SymbolRow>) -> Seq<SymbolRow> {
    if narrowed.len() == 0 {
        all
    } else {
        narrowed
    }
}

/// The methods of the receiver's own class, narrowed by where that class was
/// found when there is more than one.
pub open spec fn own_members(ctx: ResolutionCtx, site: CallSiteRow, cls: Seq<char>) -> Seq<
    SymbolRow,
> {
    let own = ctx.symbols().filter(context::member(site.callee@, cls));
    if own.len() > 1 && site.target_type_kind is Some && site.target_type_qn is Some {
        or_all(own.filter(qualifies(site.target_type_kind->0@, site.target_type_qn->0@)), own)
    } else {
        own
    }
}

/// The candidates by name, and whether the receiver's class accounts for them.
pub open spec fn found(ctx: ResolutionCtx, site: CallSiteRow) -> (Seq<SymbolRow>, bool) {
    let by_name = ctx.symbols().filter(context::named(site.callee@));
    match site.target_class {
        None => (by_name, false),
        Some(c) => if own_members(ctx, site, c@).len() > 0 {
            (own_members(ctx, site, c@), true)
        } else if ctx.symbols().filter(context::named(c@)).len() > 0 {
            match inherited_for(ctx, site.callee@, c@) {
                Some(hit) => (hit, true),
                None => (by_name, false),
            }
        } else {
            (seq![], false)
        },
    }
}

/// Only candidates in the caller's language, and only those whose return type
/// allows how the result is used.
pub open spec fn compilable(ctx: ResolutionCtx, site: CallSiteRow) -> Seq<SymbolRow> {
    let spoken = found(ctx, site).0.filter(speaks(ctx.language(site.from_path@)));
    if site.looks_option_or_result_chained {
        spoken.filter(unwrappable(ctx.symbols()))
    } else {
        spoken
    }
}

/// Does the number of arguments tell candidates apart? In these languages it
/// does, for a call that no class accounts for.
pub open spec fn arity_counts(ctx: ResolutionCtx, site: CallSiteRow) -> bool {
    let l = ctx.language(site.from_path@);
    site.target_class is None && site.arg_count is Some && (l == Some("elixir"@) || l == Some(
        "go"@,
    ))
}

pub open spec fn by_arity(ctx: ResolutionCtx, site: CallSiteRow) -> Seq<SymbolRow> {
    compilable(ctx, site).filter(takes(ctx.symbols(), site.arg_count->0))
}

/// The candidates once the number of arguments was held against them.
pub open spec fn fitting(ctx: ResolutionCtx, site: CallSiteRow) -> Seq<SymbolRow> {
    if arity_counts(ctx, site) {
        or_all(by_arity(ctx, site), compilable(ctx, site))
    } else {
        compilable(ctx, site)
    }
}

/// A method called on something other than `self` or `this` whose class does
/// not account for the candidates.
pub open spec fn is_weak(ctx: ResolutionCtx, site: CallSiteRow) -> bool {
    match site.receiver {
        None => false,
        Some(r) => !found(ctx, site).1 && r@ != "self"@ && r@ != "this"@,
    }
}

/// Languages in which code of the same directory is preferred.
pub open spec fn directory_counts(language: Option<Seq<char>>) -> bool {
    language == Some("go"@) || language == Some("java"@) || language == Some("c"@) || language
        == Some("cpp"@)
}

/// Languages in which an unqualified call cannot leave the directory.
pub open spec fn directory_binds(language: Option<Seq<char>>) -> bool {
    language == Some("go"@) || language == Some("java"@)
}

/// The verdict from where the candidates stand: the caller's file, its
/// directory, the namespaces it brings in, or nowhere in particular.
pub open spec fn by_place(ctx: ResolutionCtx, site: CallSiteRow, t: Seq<SymbolRow>) -> Verdict {
    let language = ctx.language(site.from_path@);
    let weak = is_weak(ctx, site);
    let same_file = t.filter(at_path(site.from_path@));
    let same_dir = t.filter(beside(site.from_path@));
    let in_scope = t.filter(brought_in(ctx, site.from_path@));
    if same_file.len() > 0 {
        settled(same_file, false, weak)
    } else if directory_counts(language) && same_dir.len() > 0 {
        if directory_binds(language) || same_dir.len() == t.len() {
            settled(same_dir, false, weak)
        } else {
            Verdict {
                targets: t,
                confirmed: false,
                weak,
                overflow: None,
                preferred: Some(same_dir),
            }
        }
    } else if language == Some("csharp"@) && in_scope.len() > 0 {
        settled(in_scope, in_scope.len() == 1, false)
    } else if t.len() <= MAX_CALLEE_CANDIDATES {
        settled(t, false, weak)
    } else {
        Verdict {
            targets: seq![],
            confirmed: false,
            weak: false,
            overflow: Some(t),
            preferred: None,
        }
    }
}

/// The verdict from what the caller's source names: the module the callee was
/// imported from, then the module the call is qualified with.
pub open spec fn by_module(ctx: ResolutionCtx, site: CallSiteRow, t: Seq<SymbolRow>) -> Verdict {
    if site.import_segment is Some && t.filter(stemmed(site.import_segment->0@)).len() > 0 {
        settled(t.filter(stemmed(site.import_segment->0@)), false, false)
    } else if site.module_hint is Some && t.filter(stemmed(site.module_hint->0@)).len() > 0 {
        settled(t.filter(stemmed(site.module_hint->0@)), false, false)
    } else {
        by_place(ctx, site, t)
    }
}

/// The verdict on one site.
pub open spec fn verdict(ctx: ResolutionCtx, site: CallSiteRow) -> Verdict {
    if compilable(ctx, site).len() == 0 {
        nothing()
    } else if arity_counts(ctx, site) && by_arity(ctx, site).len() == 1 {
        settled(by_arity(ctx, site), true, false)
    } else {
        by_module(ctx, site, fitting(ctx, site))
    }
}

/// A verdict over positions in the index.
struct Judged {
    targets: Vec<usize>,
    confirmed: bool,
    weak: bool,
    overflow: Option<Vec<usize>>,
    preferred: Option<Vec<usize>>,
}

impl Judged {
    spec fn ok(&self, n: nat) -> bool {
        &&& names::within(self.targets@, n)
        &&& self.overflow matches Some(v) ==> names::within(v@, n)
        &&& self.preferred matches Some(v) ==> names::within(v@, n)
    }

    spec fn means(&self, symbols: Seq<SymbolRow>) -> Verdict {
        Verdict {
            targets: context::rows(symbols, self.targets@),
            confirmed: self.confirmed,
            weak: self.weak,
            overflow: match self.overflow {
                Some(v) => Some(context::rows(symbols, v@)),
                None => None,
            },
            preferred: match self.preferred {
                Some(v) => Some(context::rows(symbols, v@)),
                None => None,
            },
        }
    }
}

fn just(targets: Vec<usize>, confirmed: bool, weak: bool) -> (r: Judged)
    ensures
        r == (Judged { targets, confirmed, weak, overflow: None, preferred: None }),
{
    Judged { targets, confirmed, weak, overflow: None, preferred: None }
}

/// Is an optional text the text `s`?
fn opt_is(o: Option<&String>, s: &str) -> (r: bool)
    ensures
        r == (o is Some && o->0@ == s@),
{
    match o {
        Some(x) => text::str_eq(x.as_str(), s),
        None => false,
    }
}

/// The methods of the receiver's own class.
fn find_own(ctx: &ResolutionCtx, site: &CallSiteRow, cls: &str) -> (r: Vec<usize>)
    requires
        ctx.wf(),
    ensures
        names::within(r@, ctx.symbols().len()),
        context::rows(ctx.symbols(), r@) == own_members(*ctx, *site, cls@),
{
    let own = ctx.find_member(site.callee.as_str(), cls);
    assert(context::rows(ctx.symbols(), own@).len() == own@.len());
    if own.len() > 1 {
        if let Some(kind) = &site.target_type_kind {
            if let Some(qn) = &site.target_type_qn {
                let pred = |s: &SymbolRow| -> (b: bool)
                    ensures
                        b == qualifies(kind@, qn@)(*s),
                    { type_qn_matches_path(kind.as_str(), qn.as_str(), s.path.as_str()) };
                let narrowed = ctx.keep(&own, pred, Ghost(qualifies(kind@, qn@)));
                assert(context::rows(ctx.symbols(), narrowed@).len() == narrowed@.len());
                if narrowed.len() > 0 {
                    return narrowed;
                }
            }
        }
    }
    own
}

/// The candidates by name, and whether the receiver's class accounts for them.
fn find_candidates(ctx: &ResolutionCtx, site: &CallSiteRow) -> (r: (Vec<usize>, bool))
    requires
        ctx.wf(),
    ensures
        names::within(r.0@, ctx.symbols().len()),
        (context::rows(ctx.symbols(), r.0@), r.1) == found(*ctx, *site),
{
    match &site.target_class {
        None => (ctx.find_named(site.callee.as_str()), false),
        Some(c) => {
            let own = find_own(ctx, site, c.as_str());
            assert(context::rows(ctx.symbols(), own@).len() == own@.len());
            if own.len() > 0 {
                return (own, true);
            }
            let cls = ctx.find_named(c.as_str());
            assert(context::rows(ctx.symbols(), cls@).len() == cls@.len());
            if cls.len() > 0 {
                match resolve_via_inheritance_closure(ctx, site.callee.as_str(), c.as_str()) {
                    Some(hit) => (hit, true),
                    None => (ctx.find_named(site.callee.as_str()), false),
                }
            } else {
                let none: Vec<usize> = Vec::new();
                assert(context::rows(ctx.symbols(), none@) =~= seq![]);
                (none, false)
            }
        },
    }
}

/// The candidates that could compile.
fn keep_compilable(
    ctx: &ResolutionCtx,
    site: &CallSiteRow,
    all: &Vec<usize>,
    language: Option<&String>,
) -> (r: Vec<usize>)
    requires
        ctx.wf(),
        names::within(all@, ctx.symbols().len()),
        context::rows(ctx.symbols(), all@) == found(*ctx, *site).0,
        language is Some ==> ctx.language(site.from_path@) == Some(language->0@),
        language is None ==> ctx.language(site.from_path@) is None,
    ensures
        names::within(r@, ctx.symbols().len()),
        context::rows(ctx.symbols(), r@) == compilable(*ctx, *site),
{
    let pred = |s: &SymbolRow| -> (b: bool)
        ensures
            b == speaks(ctx.language(site.from_path@))(*s),
        {
            match language {
                Some(l) => text::str_eq(l.as_str(), s.language.as_str()),
                None => false,
            }
        };
    let spoken = ctx.keep(all, pred, Ghost(speaks(ctx.language(site.from_path@))));
    if !site.looks_option_or_result_chained {
        return spoken;
    }
    let shaped = |s: &SymbolRow| -> (b: bool)
        ensures
            b == unwrappable(ctx.symbols())(*s),
        {
            let every = |x: &SymbolRow| -> (y: bool)
                ensures
                    y == any_row()(*x),
                { true };
            match ctx.last_with(s.qualified_name.as_str(), every, Ghost(any_row())) {
                Some(i) => signature_returns_option_or_result(ctx.symbol(i).signature.as_str()),
                None => false,
            }
        };
    ctx.keep(&spoken, shaped, Ghost(unwrappable(ctx.symbols())))
}

/// The candidates that take `n` arguments.
fn keep_fitting(ctx: &ResolutionCtx, t: &Vec<usize>, n: i64) -> (r: Vec<usize>)
    requires
        ctx.wf(),
        names::within(t@, ctx.symbols().len()),
    ensures
        names::within(r@, ctx.symbols().len()),
        context::rows(ctx.symbols(), r@) == context::rows(ctx.symbols(), t@).filter(
            takes(ctx.symbols(), n),
        ),
{
    let pred = |s: &SymbolRow| -> (b: bool)
        ensures
            b == takes(ctx.symbols(), n)(*s),
        {
            let known = |x: &SymbolRow| -> (y: bool)
                ensures
                    y == counted()(*x),
                { x.arity.is_some() };
            match ctx.last_with(s.qualified_name.as_str(), known, Ghost(counted())) {
                Some(i) => {
                    proof {
                        lemma_last_satisfies(ctx.symbols(), s.qualified_name@, counted());
                    }
                    let row = ctx.symbol(i);
                    match row.arity {
                        Some(a) => if row.arity_variadic {
                            n >= a
                        } else {
                            n == a
                        },
                        None => false,
                    }
                },
                None => false,
            }
        };
    ctx.keep(t, pred, Ghost(takes(ctx.symbols(), n)))
}

proof fn lemma_last_satisfies(
    symbols: Seq<SymbolRow>,
    q: Seq<char>,
    p: spec_fn(SymbolRow) -> bool,
)
    ensures
        context::last_of(symbols, q, p) matches Some(r) ==> p(r),
{
    let s = symbols.filter(context::has_qn(q));
    if s.filter(p).len() > 0 {
        s.lemma_filter_pred(p, s.filter(p).len() - 1);
    }
}

/// The candidates whose file has the stem `stem`.
fn keep_stemmed(ctx: &ResolutionCtx, t: &Vec<usize>, stem: &str) -> (r: Vec<usize>)
    requires
        names::within(t@, ctx.symbols().len()),
    ensures
        names::within(r@, ctx.symbols().len()),
        context::rows(ctx.symbols(), r@) == context::rows(ctx.symbols(), t@).filter(stemmed(stem@)),
        r@.len() == context::rows(ctx.symbols(), t@).filter(stemmed(stem@)).len(),
{
    let pred = |s: &SymbolRow| -> (b: bool)
        ensures
            b == stemmed(stem@)(*s),
        { paths::stem_is(s.path.as_str(), stem) };
    let r = ctx.keep(t, pred, Ghost(stemmed(stem@)));
    assert(context::rows(ctx.symbols(), r@).len() == r@.len());
    r
}

/// The verdict from where the candidates stand.
fn judge_place(
    ctx: &ResolutionCtx,
    site: &CallSiteRow,
    t: Vec<usize>,
    language: Option<&String>,
    weak: bool,
) -> (r: Judged)
    requires
        ctx.wf(),
        names::within(t@, ctx.symbols().len()),
        language is Some ==> ctx.language(site.from_path@) == Some(language->0@),
        language is None ==> ctx.language(site.from_path@) is None,
        weak == is_weak(*ctx, *site),
    ensures
        r.ok(ctx.symbols().len()),
        r.means(ctx.symbols()) == by_place(*ctx, *site, context::rows(ctx.symbols(), t@)),
{
    let ghost rows = context::rows(ctx.symbols(), t@);
    let here = text::chars_of(site.from_path.as_str());
    let in_file = |s: &SymbolRow| -> (b: bool)
        ensures
            b == at_path(site.from_path@)(*s),
        { text::str_eq(s.path.as_str(), site.from_path.as_str()) };
    let same_file = ctx.keep(&t, in_file, Ghost(at_path(site.from_path@)));
    assert(context::rows(ctx.symbols(), same_file@).len() == same_file@.len());
    assert(rows.len() == t@.len());
    if same_file.len() > 0 {
        return just(same_file, false, weak);
    }
    let binds = opt_is(language, "go") || opt_is(language, "java");
    if binds || opt_is(language, "c") || opt_is(language, "cpp") {
        let in_dir = |s: &SymbolRow| -> (b: bool)
            ensures
                b == beside(site.from_path@)(*s),
            {
                let p = text::chars_of(s.path.as_str());
                paths::same_parent(p.as_slice(), here.as_slice())
            };
        let same_dir = ctx.keep(&t, in_dir, Ghost(beside(site.from_path@)));
        assert(context::rows(ctx.symbols(), same_dir@).len() == same_dir@.len());
        if same_dir.len() > 0 {
            if binds || same_dir.len() == t.len() {
                return just(same_dir, false, weak);
            }
            return Judged {
                targets: t,
                confirmed: false,
                weak,
                overflow: None,
                preferred: Some(same_dir),
            };
        }
    }
    if opt_is(language, "csharp") {
        let used = |s: &SymbolRow| -> (b: bool)
            ensures
                b == brought_in(*ctx, site.from_path@)(*s),
            { ctx.brings_in(site.from_path.as_str(), s.path.as_str()) };
        let in_scope = ctx.keep(&t, used, Ghost(brought_in(*ctx, site.from_path@)));
        assert(context::rows(ctx.symbols(), in_scope@).len() == in_scope@.len());
        if in_scope.len() > 0 {
            let sole = in_scope.len() == 1;
            return just(in_scope, sole, false);
        }
    }
    if t.len() <= MAX_CALLEE_CANDIDATES {
        just(t, false, weak)
    } else {
        let none: Vec<usize> = Vec::new();
        assert(context::rows(ctx.symbols(), none@) =~= seq![]);
        Judged {
            targets: none,
            confirmed: false,
            weak: false,
            overflow: Some(t),
            preferred: None,
        }
    }
}

/// The verdict on one site.
fn judge(ctx: &ResolutionCtx, site: &CallSiteRow) -> (r: Judged)
    requires
        ctx.wf(),
    ensures
        r.ok(ctx.symbols().len()),
        r.means(ctx.symbols()) == verdict(*ctx, *site),
{
    let language = ctx.language_of(site.from_path.as_str());
    let (all, exact) = find_candidates(ctx, site);
    let t = keep_compilable(ctx, site, &all, language);
    assert(context::rows(ctx.symbols(), t@).len() == t@.len());
    if t.len() == 0 {
        let none: Vec<usize> = Vec::new();
        assert(context::rows(ctx.symbols(), none@) =~= seq![]);
        return just(none, false, false);
    }
    let mut t = t;
    if site.target_class.is_none() && (opt_is(language, "elixir") || opt_is(language, "go")) {
        if let Some(n) = site.arg_count {
            let narrowed = keep_fitting(ctx, &t, n);
            assert(context::rows(ctx.symbols(), narrowed@).len() == narrowed@.len());
            if narrowed.len() == 1 {
                return just(narrowed, true, false);
            }
            if narrowed.len() > 0 {
                t = narrowed;
            }
        }
    }
    assert(context::rows(ctx.symbols(), t@) == fitting(*ctx, *site));
    if let Some(seg) = &site.import_segment {
        let imported = keep_stemmed(ctx, &t, seg.as_str());
        if imported.len() > 0 {
            return just(imported, false, false);
        }
    }
    if let Some(hint) = &site.module_hint {
        let hinted = keep_stemmed(ctx, &t, hint.as_str());
        if hinted.len() > 0 {
            return just(hinted, false, false);
        }
    }
    let weak = match &site.receiver {
        None => false,
        Some(r) => !exact && !text::str_eq(r.as_str(), "self") && !text::str_eq(
            r.as_str(),
            "this",
        ),
    };
    judge_place(ctx, site, t, language, weak)
}

// ---------------------------------------------------------------------------
// Edges
// ---------------------------------------------------------------------------

/// The confidence an edge of the site is stored with. More than one target is
/// ambiguous whatever was recorded; so is one that only its name speaks for.
pub open spec fn effective(site: CallSiteRow, v: Verdict) -> Seq<char> {
    if v.targets.len() > 1 {
        crate::types::spelling(EdgeConfidence::Ambiguous)
    } else if v.confirmed {
        crate::types::spelling(EdgeConfidence::Resolved)
    } else if v.weak {
        crate::types::spelling(EdgeConfidence::Ambiguous)
    } else {
        site.confidence@
    }
}

/// 1 for a target that lost to preferred ones, else 0.
pub open spec fn rank_of(v: Verdict, r: SymbolRow) -> int {
    match v.preferred {
        Some(p) => if exists|k: int|
            0 <= k < p.len() && (#[trigger] p[k]).qualified_name@ == r.qualified_name@ && p[k].path@
                == r.path@ {
            0
        } else {
            1
        },
        None => 0,
    }
}

pub open spec fn edge_to(site: CallSiteRow, v: Verdict, r: SymbolRow) -> CallEdgeView {
    CallEdgeView {
        from_symbol: site.enclosing_qn@,
        to_symbol: r.qualified_name@,
        call_site_line: match site.line {
            Some(l) => Some(l as i32),
            None => None,
        },
        call_site_id: Some(site.id),
        edge_confidence: effective(site, v),
        from_path: Some(site.from_path@),
        to_path: Some(r.path@),
        edge_kind: site.edge_kind@,
        candidate_rank: rank_of(v, r),
    }
}

/// Two edges of one site, callee and kind.
pub open spec fn same_key(a: CallEdgeView, b: CallEdgeView) -> bool {
    a.call_site_id == b.call_site_id && a.to_symbol == b.to_symbol && a.edge_kind == b.edge_kind
}

pub open spec fn has_key(acc: Seq<CallEdgeView>, e: CallEdgeView) -> bool {
    exists|k: int| 0 <= k < acc.len() && same_key(#[trigger] acc[k], e)
}

/// `e` appended, unless an edge of its site, callee and kind is there already.
pub open spec fn add_edge(acc: Seq<CallEdgeView>, e: CallEdgeView) -> Seq<CallEdgeView> {
    if has_key(acc, e) {
        acc
    } else {
        acc.push(e)
    }
}

/// The edges to the first `n` targets of a site, appended.
pub open spec fn add_targets(
    acc: Seq<CallEdgeView>,
    site: CallSiteRow,
    v: Verdict,
    n: nat,
) -> Seq<CallEdgeView>
    decreases n,
{
    if n == 0 || n > v.targets.len() {
        acc
    } else {
        add_edge(add_targets(acc, site, v, (n - 1) as nat), edge_to(site, v, v.targets[n - 1]))
    }
}

/// The edges of a site, appended.
pub open spec fn add_site(acc: Seq<CallEdgeView>, site: CallSiteRow, v: Verdict) -> Seq<
    CallEdgeView,
> {
    add_targets(acc, site, v, v.targets.len())
}

/// The edges of all sites, in the order of the sites.
pub open spec fn edges_of(ctx: ResolutionCtx, sites: Seq<CallSiteRow>) -> Seq<CallEdgeView>
    decreases sites.len(),
{
    if sites.len() == 0 {
        seq![]
    } else {
        add_site(
            edges_of(ctx, sites.drop_last()),
            sites.last(),
            verdict(ctx, sites.last()),
        )
    }
}

/// The record of a site with too many candidates.
pub open spec fn group_for(site: CallSiteRow, candidates: Seq<SymbolRow>) -> AmbiguityGroupView {
    AmbiguityGroupView {
        call_site_id: site.id,
        from_path: site.from_path@,
        candidate_group_key: site.callee@,
        candidate_count: candidates.len() as int,
        candidates: candidates.map_values(|r: SymbolRow| (r.qualified_name@, r.path@)),
        reason: "unscoped_candidates_exceeded_max_callee_candidates"@,
    }
}

/// The records of all sites with too many candidates.
pub open spec fn groups_of(ctx: ResolutionCtx, sites: Seq<CallSiteRow>) -> Seq<AmbiguityGroupView>
    decreases sites.len(),
{
    if sites.len() == 0 {
        seq![]
    } else {
        let init = groups_of(ctx, sites.drop_last());
        match verdict(ctx, sites.last()).overflow {
            Some(c) => init.push(group_for(sites.last(), c)),
            None => init,
        }
    }
}

pub open spec fn edge_views(v: Seq<CallEdge>) -> Seq<CallEdgeView> {
    v.map_values(|e: CallEdge| e@)
}

pub open spec fn group_views(v: Seq<AmbiguityGroup>) -> Seq<AmbiguityGroupView> {
    v.map_values(|g: AmbiguityGroup| g@)
}

/// The index `by_id` leads from a site to all of its edges.
spec fn leads(by_id: Map<i64, Vec<usize>>, edges: Seq<CallEdge>) -> bool {
    &&& forall|id: i64| #[trigger]
        by_id.contains_key(id) ==> names::within(by_id[id]@, edges.len())
    &&& forall|k: int|
        0 <= k < edges.len() ==> match (#[trigger] edges[k]).call_site_id {
            Some(id) => by_id.contains_key(id) && by_id[id]@.contains(k as usize),
            None => true,
        }
}

/// Is there an edge of this site, callee and kind already?
fn is_known(
    by_id: &HashMap<i64, Vec<usize>>,
    edges: &Vec<CallEdge>,
    id: i64,
    to: &str,
    kind: &str,
    e: Ghost<CallEdgeView>,
) -> (r: bool)
    requires
        leads(by_id@, edges@),
        e@.call_site_id == Some(id),
        e@.to_symbol == to@,
        e@.edge_kind == kind@,
    ensures
        r == has_key(edge_views(edges@), e@),
{
    broadcast use vstd::std_specs::hash::group_hash_axioms;

    let ghost views = edge_views(edges@);
    let total = edges.len();
    match by_id.get(&id) {
        None => {
            proof {
                if has_key(views, e@) {
                    let k = choose|k: int| 0 <= k < views.len() && same_key(#[trigger] views[k], e@);
                    assert(edges@[k].call_site_id == Some(id));
                }
            }
            false
        },
        Some(v) => {
            let mut i: usize = 0;
            while i < v.len()
                invariant
                    i <= v@.len(),
                    names::within(v@, edges@.len()),
                    views == edge_views(edges@),
                    e@.call_site_id == Some(id),
                    e@.to_symbol == to@,
                    e@.edge_kind == kind@,
                    forall|j: int|
                        0 <= j < i ==> !same_key(views[(#[trigger] v@[j]) as int], e@),
                decreases v@.len() - i,
            {
                let x = &edges[v[i]];
                assert(views[v@[i as int] as int] == x@);
                let same_id = match x.call_site_id {
                    Some(n) => n == id,
                    None => false,
                };
                if same_id && text::str_eq(x.to_symbol.as_str(), to) && text::str_eq(
                    x.edge_kind.as_str(),
                    kind,
                ) {
                    return true;
                }
                i += 1;
            }
            proof {
                if has_key(views, e@) {
                    let k = choose|k: int| 0 <= k < views.len() && same_key(#[trigger] views[k], e@);
                    assert(edges@[k].call_site_id == Some(id));
                    let j = choose|j: int| 0 <= j < v@.len() && v@[j] == k as usize;
                    assert(v@[j] as int == k);
                }
            }
            false
        },
    }
}

/// The rank of a target.
fn find_rank(ctx: &ResolutionCtx, judged: &Judged, t: usize) -> (r: i64)
    requires
        judged.ok(ctx.symbols().len()),
        t < ctx.symbols().len(),
    ensures
        r == rank_of(judged.means(ctx.symbols()), ctx.symbols()[t as int]),
{
    let ghost symbols = ctx.symbols();
    let row = ctx.symbol(t);
    match &judged.preferred {
        None => 0,
        Some(p) => {
            let ghost pref = context::rows(symbols, p@);
            let mut i: usize = 0;
            while i < p.len()
                invariant
                    i <= p@.len(),
                    symbols == ctx.symbols(),
                    t < symbols.len(),
                    *row == symbols[t as int],
                    names::within(p@, symbols.len()),
                    pref == context::rows(symbols, p@),
                    judged.means(symbols).preferred == Some(pref),
                    forall|k: int|
                        0 <= k < i ==> !((#[trigger] pref[k]).qualified_name@
                            == row.qualified_name@ && pref[k].path@ == row.path@),
                decreases p@.len() - i,
            {
                let q = ctx.symbol(p[i]);
                assert(pref[i as int] == *q);
                if text::str_eq(q.qualified_name.as_str(), row.qualified_name.as_str())
                    && text::str_eq(q.path.as_str(), row.path.as_str()) {
                    assert(pref.len() == p@.len());
                    let ghost v = judged.means(symbols);
                    let ghost r = symbols[t as int];
                    assert(pref[i as int].qualified_name@ == r.qualified_name@);
                    assert(pref[i as int].path@ == r.path@);
                    assert(v.preferred->0 == pref);
                    assert(exists|k: int|
                        0 <= k < v.preferred->0.len() && (
                        #[trigger] v.preferred->0[k]).qualified_name@ == r.qualified_name@
                            && v.preferred->0[k].path@ == r.path@);
                    assert(rank_of(v, r) == 0);
                    return 0;
                }
                i += 1;
            }
            1
        },
    }
}

/// Append the edges of one site.
fn push_edges(
    ctx: &ResolutionCtx,
    site: &CallSiteRow,
    judged: &Judged,
    edges: &mut Vec<CallEdge>,
    by_id: &mut HashMap<i64, Vec<usize>>,
)
    requires
        judged.ok(ctx.symbols().len()),
        leads(old(by_id)@, old(edges)@),
    ensures
        leads(final(by_id)@, final(edges)@),
        edge_views(final(edges)@) == add_site(
            edge_views(old(edges)@),
            *site,
            judged.means(ctx.symbols()),
        ),
{
    broadcast use vstd::std_specs::hash::group_hash_axioms;

    let ghost v = judged.means(ctx.symbols());
    let ghost start = edge_views(edges@);
    assert(v.targets.len() == judged.targets@.len());
    let confidence: String = if judged.targets.len() > 1 {
        EdgeConfidence::Ambiguous.as_str().to_owned()
    } else if judged.confirmed {
        EdgeConfidence::Resolved.as_str().to_owned()
    } else if judged.weak {
        EdgeConfidence::Ambiguous.as_str().to_owned()
    } else {
        site.confidence.clone()
    };
    let mut i: usize = 0;
    while i < judged.targets.len()
        invariant
            i <= judged.targets@.len(),
            judged.ok(ctx.symbols().len()),
            v == judged.means(ctx.symbols()),
            v.targets.len() == judged.targets@.len(),
            confidence@ == effective(*site, v),
            leads(by_id@, edges@),
            edge_views(edges@) == add_targets(start, *site, v, i as nat),
        decreases judged.targets@.len() - i,
    {
        let t = judged.targets[i];
        let row = ctx.symbol(t);
        assert(v.targets[i as int] == *row);
        let ghost e = edge_to(*site, v, *row);
        if !is_known(
            by_id,
            edges,
            site.id,
            row.qualified_name.as_str(),
            site.edge_kind.as_str(),
            Ghost(e),
        ) {
            let rank = find_rank(ctx, judged, t);
            let line: Option<i32> = match site.line {
                Some(l) => Some(
                    #[verifier::truncate]
                    (l as i32),
                ),
                None => None,
            };
            let ghost before = edges@;
            let ghost index = by_id@;
            let n = edges.len();
            edges.push(
                CallEdge {
                    from_symbol: site.enclosing_qn.clone(),
                    to_symbol: row.qualified_name.clone(),
                    call_site_line: line,
                    call_site_id: Some(site.id),
                    edge_confidence: confidence.clone(),
                    from_path: Some(site.from_path.clone()),
                    to_path: Some(row.path.clone()),
                    edge_kind: site.edge_kind.clone(),
                    candidate_rank: rank,
                },
            );
            let mut list: Vec<usize> = match by_id.get(&site.id) {
                Some(l) => l.clone(),
                None => Vec::new(),
            };
            let ghost was = list@;
            list.push(n);
            by_id.insert(site.id, list);
            proof {
                assert(edge_views(edges@) =~= edge_views(before).push(e));
                assert forall|id: i64| #[trigger] by_id@.contains_key(id) implies names::within(
                    by_id@[id]@,
                    edges@.len(),
                ) by {
                    if id != site.id {
                        assert(index.contains_key(id));
                    } else {
                        assert forall|j: int| 0 <= j < list@.len() implies (#[trigger] list@[j])
                            < edges@.len() by {
                            if j < was.len() {
                                assert(index.contains_key(id));
                                assert(index[id]@[j] == list@[j]);
                            }
                        }
                    }
                }
                assert forall|k: int| 0 <= k < edges@.len() implies match (
                #[trigger] edges@[k]).call_site_id {
                    Some(id) => by_id@.contains_key(id) && by_id@[id]@.contains(k as usize),
                    None => true,
                } by {
                    if k == n {
                        assert(list@[was.len() as int] == n);
                    } else {
                        assert(edges@[k] == before[k]);
                        if let Some(id) = before[k].call_site_id {
                            let j = choose|j: int|
                                0 <= j < index[id]@.len() && index[id]@[j] == k as usize;
                            if id == site.id {
                                assert(list@[j] == k as usize);
                            }
                        }
                    }
                }
            }
        }
        i += 1;
    }
}

/// The record of a site with too many candidates.
fn group_of(ctx: &ResolutionCtx, site: &CallSiteRow, over: &Vec<usize>) -> (r: AmbiguityGroup)
    requires
        names::within(over@, ctx.symbols().len()),
    ensures
        r@ == group_for(*site, context::rows(ctx.symbols(), over@)),
{
    let ghost want = group_for(*site, context::rows(ctx.symbols(), over@)).candidates;
    let mut candidates: Vec<(String, String)> = Vec::new();
    let mut i: usize = 0;
    while i < over.len()
        invariant
            i <= over@.len(),
            names::within(over@, ctx.symbols().len()),
            want == group_for(*site, context::rows(ctx.symbols(), over@)).candidates,
            pairs(candidates@) =~= want.take(i as int),
        decreases over@.len() - i,
    {
        let row = ctx.symbol(over[i]);
        let ghost before = candidates@;
        candidates.push((row.qualified_name.clone(), row.path.clone()));
        assert(pairs(candidates@) =~= pairs(before).push((row.qualified_name@, row.path@)));
        assert(want[i as int] == (row.qualified_name@, row.path@));
        i += 1;
    }
    assert(pairs(candidates@) =~= want);
    AmbiguityGroup {
        call_site_id: site.id,
        from_path: site.from_path.clone(),
        candidate_group_key: site.callee.clone(),
        candidate_count: over.len(),
        candidates,
        reason: "unscoped_candidates_exceeded_max_callee_candidates".to_owned(),
    }
}

/// Resolve every site against the tables: the edges of the sites whose
/// candidates could be narrowed, and a record of each site whose could not.
/// The order of the sites decides which edge is kept of two with one key.
pub fn resolve_sites_to_edges(ctx: &ResolutionCtx, sites: &Vec<CallSiteRow>) -> (r: (
    Vec<CallEdge>,
    Vec<AmbiguityGroup>,
))
    requires
        ctx.wf(),
    ensures
        edge_views(r.0@) == edges_of(*ctx, sites@),
        group_views(r.1@) == groups_of(*ctx, sites@),
{
    broadcast use vstd::std_specs::hash::group_hash_axioms;

    let mut found_edges: Vec<CallEdge> = Vec::new();
    let mut groups: Vec<AmbiguityGroup> = Vec::new();
    let mut by_id: HashMap<i64, Vec<usize>> = HashMap::new();
    let mut i: usize = 0;
    assert(edge_views(found_edges@) =~= edges_of(*ctx, sites@.take(0)));
    assert(group_views(groups@) =~= groups_of(*ctx, sites@.take(0)));
    while i < sites.len()
        invariant
            i <= sites@.len(),
            ctx.wf(),
            leads(by_id@, found_edges@),
            edge_views(found_edges@) == edges_of(*ctx, sites@.take(i as int)),
            group_views(groups@) == groups_of(*ctx, sites@.take(i as int)),
        decreases sites@.len() - i,
    {
        let site = &sites[i];
        let judged = judge(ctx, site);
        proof {
            assert(sites@.take(i + 1).drop_last() =~= sites@.take(i as int));
            assert(sites@.take(i + 1).last() == *site);
        }
        if let Some(over) = &judged.overflow {
            let ghost before = groups@;
            let g = group_of(ctx, site, over);
            groups.push(g);
            assert(group_views(groups@) =~= group_views(before).push(g@));
        }
        push_edges(ctx, site, &judged, &mut found_edges, &mut by_id);
        i += 1;
    }
    assert(sites@.take(sites@.len() as int) =~= sites@);
    (found_edges, groups)
}

// ---------------------------------------------------------------------------
// What holds of every resolution
// ---------------------------------------------------------------------------

proof fn lemma_add_targets_keys(acc: Seq<CallEdgeView>, site: CallSiteRow, v: Verdict, n: nat)
    requires
        forall|i: int, j: int|
            0 <= i < j < acc.len() ==> !same_key(#[trigger] acc[i], #[trigger] acc[j]),
    ensures
        forall|i: int, j: int|
            0 <= i < j < add_targets(acc, site, v, n).len() ==> !same_key(
                #[trigger] add_targets(acc, site, v, n)[i],
                #[trigger] add_targets(acc, site, v, n)[j],
            ),
    decreases n,
{
    if n > 0 && n <= v.targets.len() {
        lemma_add_targets_keys(acc, site, v, (n - 1) as nat);
        let a = add_targets(acc, site, v, (n - 1) as nat);
        let r = add_targets(acc, site, v, n);
        let e = edge_to(site, v, v.targets[n - 1]);
        assert(r == add_edge(a, e));
        assert forall|i: int, j: int| 0 <= i < j < r.len() implies !same_key(
            #[trigger] r[i],
            #[trigger] r[j],
        ) by {
            assert(r[i] == a[i]);
            if j < a.len() {
                assert(r[j] == a[j]);
            }
        }
    }
}

/// There is at most one edge for a call site, a callee and a kind.
pub proof fn lemma_one_edge_per_key(ctx: ResolutionCtx, sites: Seq<CallSiteRow>)
    ensures
        forall|i: int, j: int|
            0 <= i < j < edges_of(ctx, sites).len() ==> !same_key(
                #[trigger] edges_of(ctx, sites)[i],
                #[trigger] edges_of(ctx, sites)[j],
            ),
    decreases sites.len(),
{
    if sites.len() > 0 {
        let init = edges_of(ctx, sites.drop_last());
        let v = verdict(ctx, sites.last());
        lemma_one_edge_per_key(ctx, sites.drop_last());
        lemma_add_targets_keys(init, sites.last(), v, v.targets.len());
    }
}

/// An edge comes from one of the sites and one of its targets.
pub open spec fn accounted(ctx: ResolutionCtx, sites: Seq<CallSiteRow>, e: CallEdgeView) -> bool {
    exists|s: int, t: int|
        0 <= s < sites.len() && 0 <= t < verdict(ctx, sites[s]).targets.len() && e
            == #[trigger] edge_to(
            sites[s],
            verdict(ctx, sites[s]),
            verdict(ctx, sites[s]).targets[t],
        )
}

proof fn lemma_add_targets_accounted(
    ctx: ResolutionCtx,
    sites: Seq<CallSiteRow>,
    acc: Seq<CallEdgeView>,
    n: nat,
)
    requires
        sites.len() > 0,
        n <= verdict(ctx, sites.last()).targets.len(),
        forall|k: int| 0 <= k < acc.len() ==> accounted(ctx, sites, #[trigger] acc[k]),
    ensures
        forall|k: int|
            0 <= k < add_targets(acc, sites.last(), verdict(ctx, sites.last()), n).len()
                ==> accounted(
                ctx,
                sites,
                #[trigger] add_targets(acc, sites.last(), verdict(ctx, sites.last()), n)[k],
            ),
    decreases n,
{
    if n > 0 {
        let site = sites.last();
        let v = verdict(ctx, site);
        lemma_add_targets_accounted(ctx, sites, acc, (n - 1) as nat);
        let s = sites.len() - 1;
        let e = edge_to(sites[s], verdict(ctx, sites[s]), v.targets[n - 1]);
        assert(accounted(ctx, sites, e));
        let a = add_targets(acc, site, v, (n - 1) as nat);
        let r = add_targets(acc, site, v, n);
        assert(r == add_edge(a, e));
        assert forall|k: int| 0 <= k < r.len() implies accounted(ctx, sites, #[trigger] r[k]) by {
            if k < a.len() {
                assert(r[k] == a[k]);
            }
        }
    }
}

/// Every edge comes from a site of the pass and a target its verdict names.
pub proof fn lemma_edges_accounted(ctx: ResolutionCtx, sites: Seq<CallSiteRow>)
    ensures
        forall|k: int|
            0 <= k < edges_of(ctx, sites).len() ==> accounted(
                ctx,
                sites,
                #[trigger] edges_of(ctx, sites)[k],
            ),
    decreases sites.len(),
{
    if sites.len() > 0 {
        let init = edges_of(ctx, sites.drop_last());
        lemma_edges_accounted(ctx, sites.drop_last());
        assert forall|k: int| 0 <= k < init.len() implies accounted(
            ctx,
            sites,
            #[trigger] init[k],
        ) by {
            let (s, t) = choose|s: int, t: int|
                0 <= s < sites.drop_last().len() && 0 <= t < verdict(
                    ctx,
                    sites.drop_last()[s],
                ).targets.len() && init[k] == #[trigger] edge_to(
                    sites.drop_last()[s],
                    verdict(ctx, sites.drop_last()[s]),
                    verdict(ctx, sites.drop_last()[s]).targets[t],
                );
            assert(sites.drop_last()[s] == sites[s]);
            assert(init[k] == edge_to(
                sites[s],
                verdict(ctx, sites[s]),
                verdict(ctx, sites[s]).targets[t],
            ));
        }
        let v = verdict(ctx, sites.last());
        lemma_add_targets_accounted(ctx, sites, init, v.targets.len());
    }
}

/// A call never reaches another language, and never a symbol of another name.
pub proof fn lemma_targets_sound(ctx: ResolutionCtx, site: CallSiteRow, t: int)
    requires
        0 <= t < verdict(ctx, site).targets.len(),
    ensures
        ctx.language(site.from_path@) == Some(verdict(ctx, site).targets[t].language@),
        verdict(ctx, site).targets[t].name@ == site.callee@,
        ctx.symbols().contains(verdict(ctx, site).targets[t]),
{
    lemma_found_sound(ctx, site);
    lemma_subset_of_compilable(ctx, site);
    let r = verdict(ctx, site).targets[t];
    assert(compilable(ctx, site).contains(r));
    let spoken = found(ctx, site).0.filter(speaks(ctx.language(site.from_path@)));
    if site.looks_option_or_result_chained {
        lemma_filter_sub(spoken, unwrappable(ctx.symbols()), r);
    }
    lemma_filter_sub(found(ctx, site).0, speaks(ctx.language(site.from_path@)), r);
}

/// What a filter keeps was there and passes the test.
pub proof fn lemma_filter_sub(s: Seq<SymbolRow>, p: spec_fn(SymbolRow) -> bool, r: SymbolRow)
    requires
        s.filter(p).contains(r),
    ensures
        s.contains(r),
        p(r),
    decreases s.len(),
{
    reveal(Seq::filter);
    if s.len() > 0 {
        let init = s.drop_last().filter(p);
        let k = choose|k: int| 0 <= k < s.filter(p).len() && s.filter(p)[k] == r;
        if k < init.len() {
            assert(init.contains(init[k]));
            lemma_filter_sub(s.drop_last(), p, r);
            let j = choose|j: int| 0 <= j < s.drop_last().len() && s.drop_last()[j] == r;
            assert(s[j] == r);
        } else {
            assert(s[s.len() - 1] == r);
        }
    }
}

proof fn lemma_declared_sound(
    symbols: Seq<SymbolRow>,
    callee: Seq<char>,
    level: Seq<Seq<char>>,
    r: SymbolRow,
)
    requires
        declared_at(symbols, callee, level).contains(r),
    ensures
        symbols.contains(r),
        r.name@ == callee,
    decreases level.len(),
{
    if level.len() > 0 {
        let a = declared_at(symbols, callee, level.drop_last());
        let b = symbols.filter(context::member(callee, level.last()));
        let k = choose|k: int| 0 <= k < (a + b).len() && (a + b)[k] == r;
        if k < a.len() {
            assert(a[k] == r);
            lemma_declared_sound(symbols, callee, level.drop_last(), r);
        } else {
            assert(b[k - a.len()] == r);
            lemma_filter_sub(symbols, context::member(callee, level.last()), r);
        }
    }
}

proof fn lemma_distinct_sub(rows: Seq<SymbolRow>, r: SymbolRow)
    requires
        distinct(rows).contains(r),
    ensures
        rows.contains(r),
    decreases rows.len(),
{
    if rows.len() > 0 {
        let init = distinct(rows.drop_last());
        let k = choose|k: int| 0 <= k < distinct(rows).len() && distinct(rows)[k] == r;
        if k < init.len() {
            assert(init[k] == r);
            lemma_distinct_sub(rows.drop_last(), r);
            let j = choose|j: int| 0 <= j < rows.drop_last().len() && rows.drop_last()[j] == r;
            assert(rows[j] == r);
        } else {
            assert(rows[rows.len() - 1] == r);
        }
    }
}

proof fn lemma_inherited_sound(
    symbols: Seq<SymbolRow>,
    callee: Seq<char>,
    levels: Seq<Seq<Seq<char>>>,
    r: SymbolRow,
)
    requires
        inherited(symbols, callee, levels) matches Some(h) && h.contains(r),
    ensures
        symbols.contains(r),
        r.name@ == callee,
    decreases levels.len(),
{
    let hits = distinct(declared_at(symbols, callee, levels[0]));
    if hits.len() == 1 {
        lemma_distinct_sub(declared_at(symbols, callee, levels[0]), r);
        lemma_declared_sound(symbols, callee, levels[0], r);
    } else {
        lemma_inherited_sound(symbols, callee, levels.drop_first(), r);
    }
}

pub proof fn lemma_found_sound(ctx: ResolutionCtx, site: CallSiteRow)
    ensures
        forall|r: SymbolRow| #[trigger]
            found(ctx, site).0.contains(r) ==> ctx.symbols().contains(r) && r.name@ == site.callee@,
{
    assert forall|r: SymbolRow| #[trigger] found(ctx, site).0.contains(r) implies ctx.symbols().contains(
        r,
    ) && r.name@ == site.callee@ by {
        let by_name = ctx.symbols().filter(context::named(site.callee@));
        if by_name.contains(r) {
            lemma_filter_sub(ctx.symbols(), context::named(site.callee@), r);
        } else if let Some(c) = site.target_class {
            let own = ctx.symbols().filter(context::member(site.callee@, c@));
            if own_members(ctx, site, c@).len() > 0 {
                if !own.contains(r) {
                    lemma_filter_sub(
                        own,
                        qualifies(site.target_type_kind->0@, site.target_type_qn->0@),
                        r,
                    );
                }
                lemma_filter_sub(ctx.symbols(), context::member(site.callee@, c@), r);
            } else {
                lemma_inherited_sound(
                    ctx.symbols(),
                    site.callee@,
                    ctx.ancestors_of(c@)->0,
                    r,
                );
            }
        }
    }
}

proof fn lemma_subset_of_compilable(ctx: ResolutionCtx, site: CallSiteRow)
    ensures
        forall|t: int|
            0 <= t < verdict(ctx, site).targets.len() ==> compilable(ctx, site).contains(
                #[trigger] verdict(ctx, site).targets[t],
            ),
{
    let c = compilable(ctx, site);
    let f = fitting(ctx, site);
    let v = verdict(ctx, site);
    assert forall|t: int| 0 <= t < v.targets.len() implies c.contains(#[trigger] v.targets[t]) by {
        let r = v.targets[t];
        assert(v.targets.contains(r));
        if arity_counts(ctx, site) && by_arity(ctx, site).contains(r) {
            lemma_filter_sub(c, takes(ctx.symbols(), site.arg_count->0), r);
        } else {
            let path = site.from_path@;
            if !f.contains(r) {
                if site.import_segment is Some && f.filter(
                    stemmed(site.import_segment->0@),
                ).contains(r) {
                    lemma_filter_sub(f, stemmed(site.import_segment->0@), r);
                } else if site.module_hint is Some && f.filter(
                    stemmed(site.module_hint->0@),
                ).contains(r) {
                    lemma_filter_sub(f, stemmed(site.module_hint->0@), r);
                } else if f.filter(at_path(path)).contains(r) {
                    lemma_filter_sub(f, at_path(path), r);
                } else if f.filter(beside(path)).contains(r) {
                    lemma_filter_sub(f, beside(path), r);
                } else {
                    lemma_filter_sub(f, brought_in(ctx, path), r);
                }
            }
            if !c.contains(r) {
                lemma_filter_sub(c, takes(ctx.symbols(), site.arg_count->0), r);
            }
        }
    }
}

/// A site with too many candidates gets no edge, and its record holds more of
/// them than may ever be picked from; any other site gets no record.
pub proof fn lemma_overflow_has_no_edge(ctx: ResolutionCtx, site: CallSiteRow)
    ensures
        verdict(ctx, site).overflow matches Some(c) ==> c.len() > MAX_CALLEE_CANDIDATES && verdict(
            ctx,
            site,
        ).targets.len() == 0 && groups_of(ctx, seq![site]) == seq![group_for(site, c)] && edges_of(
            ctx,
            seq![site],
        ).len() == 0,
        verdict(ctx, site).overflow is None ==> groups_of(ctx, seq![site]).len() == 0,
{
    let one = seq![site];
    assert(one.drop_last() =~= seq![]);
    assert(groups_of(ctx, one.drop_last()) =~= seq![]);
    assert(edges_of(ctx, one.drop_last()) =~= seq![]);
    if let Some(c) = verdict(ctx, site).overflow {
        assert(groups_of(ctx, one) =~= seq![group_for(site, c)]);
    }
}

/// A site with several targets never has an edge that claims more than an
/// ambiguous one.
pub proof fn lemma_several_targets_are_ambiguous(
    ctx: ResolutionCtx,
    site: CallSiteRow,
    t: int,
)
    requires
        0 <= t < verdict(ctx, site).targets.len(),
        verdict(ctx, site).targets.len() > 1,
    ensures
        edge_to(site, verdict(ctx, site), verdict(ctx, site).targets[t]).edge_confidence
            == crate::types::spelling(EdgeConfidence::Ambiguous),
{
}

pub proof fn lemma_edges_have_site_ids(ctx: ResolutionCtx, sites: Seq<CallSiteRow>, k: int)
    requires
        0 <= k < edges_of(ctx, sites).len(),
    ensures
        exists|s: int|
            0 <= s < sites.len() && edges_of(ctx, sites)[k].call_site_id == Some(
                (#[trigger] sites[s]).id,
            ),
{
    lemma_edges_accounted(ctx, sites);
    let e = edges_of(ctx, sites)[k];
    assert(accounted(ctx, sites, e));
    let (s, t) = choose|s: int, t: int|
        0 <= s < sites.len() && 0 <= t < verdict(ctx, sites[s]).targets.len() && e
            == #[trigger] edge_to(
            sites[s],
            verdict(ctx, sites[s]),
            verdict(ctx, sites[s]).targets[t],
        );
    assert(e.call_site_id == Some(sites[s].id));
}

pub proof fn lemma_add_targets_shift(
    prefix: Seq<CallEdgeView>,
    acc: Seq<CallEdgeView>,
    site: CallSiteRow,
    v: Verdict,
    n: nat,
)
    requires
        forall|k: int| 0 <= k < prefix.len() ==> (#[trigger] prefix[k]).call_site_id != Some(
            site.id,
        ),
    ensures
        add_targets(prefix + acc, site, v, n) == prefix + add_targets(acc, site, v, n),
    decreases n,
{
    if n > 0 && n <= v.targets.len() {
        lemma_add_targets_shift(prefix, acc, site, v, (n - 1) as nat);
        let a = add_targets(acc, site, v, (n - 1) as nat);
        let e = edge_to(site, v, v.targets[n - 1]);
        if has_key(prefix + a, e) {
            let k = choose|k: int|
                0 <= k < (prefix + a).len() && same_key(#[trigger] (prefix + a)[k], e);
            if k < prefix.len() {
                assert(prefix[k].call_site_id != Some(site.id));
            } else {
                assert(same_key(a[k - prefix.len()], e));
            }
        }
        if has_key(a, e) {
            let k = choose|k: int| 0 <= k < a.len() && same_key(#[trigger] a[k], e);
            assert(same_key((prefix + a)[k + prefix.len()], e));
        } else {
            assert((prefix + a).push(e) =~= prefix + a.push(e));
        }
    }
}

/// Sites are resolved one by one: resolving some of them again, apart from
/// the rest, gives the same edges and records as resolving all of them at
/// once. This is what lets a pass over changed files stand beside the edges
/// of the others.
pub proof fn lemma_resolution_splits(
    ctx: ResolutionCtx,
    a: Seq<CallSiteRow>,
    b: Seq<CallSiteRow>,
)
    requires
        forall|i: int, j: int|
            0 <= i < a.len() && 0 <= j < b.len() ==> (#[trigger] a[i]).id != (#[trigger] b[j]).id,
    ensures
        edges_of(ctx, a + b) == edges_of(ctx, a) + edges_of(ctx, b),
        groups_of(ctx, a + b) == groups_of(ctx, a) + groups_of(ctx, b),
    decreases b.len(),
{
    if b.len() == 0 {
        assert(a + b =~= a);
        assert(edges_of(ctx, a) + edges_of(ctx, b) =~= edges_of(ctx, a));
        assert(groups_of(ctx, a) + groups_of(ctx, b) =~= groups_of(ctx, a));
    } else {
        let c = b.drop_last();
        assert forall|i: int, j: int| 0 <= i < a.len() && 0 <= j < c.len() implies (
        #[trigger] a[i]).id != (#[trigger] c[j]).id by {
            assert(c[j] == b[j]);
        }
        lemma_resolution_splits(ctx, a, c);
        assert((a + b).drop_last() =~= a + c);
        assert((a + b).last() == b.last());
        let site = b.last();
        let v = verdict(ctx, site);
        let prefix = edges_of(ctx, a);
        assert forall|k: int| 0 <= k < prefix.len() implies (#[trigger] prefix[k]).call_site_id
            != Some(site.id) by {
            lemma_edges_have_site_ids(ctx, a, k);
            let s = choose|s: int|
                0 <= s < a.len() && prefix[k].call_site_id == Some((#[trigger] a[s]).id);
            assert(a[s].id != b[b.len() - 1].id);
        }
        lemma_add_targets_shift(prefix, edges_of(ctx, c), site, v, v.targets.len());
        if let Some(o) = v.overflow {
            assert((groups_of(ctx, a) + groups_of(ctx, c)).push(group_for(site, o))
                =~= groups_of(ctx, a) + groups_of(ctx, c).push(group_for(site, o)));
        }
    }
}

} // verus!
