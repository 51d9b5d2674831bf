//! What the rows of a parsed file say of the source they were read from.

use vstd::prelude::*;

use crate::edges;
use crate::extraction;
use crate::extraction::{
    CallSiteView, ExtractedFile, RawCall, RawEffect, RawImport, RawTypeRelation, SqlReference,
    TreeFacts,
};
use crate::graph_laws;
use crate::naming;
use crate::naming::{ParsedSymbol, SymbolKind};
use crate::text;
use crate::types;
use crate::types::EdgeConfidence;

verus! {

/// The symbol at `j` is the last one with that name that starts on that line.
pub open spec fn stands(symbols: Seq<ParsedSymbol>, j: int, name: Seq<char>, line: usize) -> bool {
    &&& 0 <= j < symbols.len()
    &&& symbols[j].name@ == name
    &&& symbols[j].line_start == line
    &&& forall|k: int|
        j < k < symbols.len() ==> !((#[trigger] symbols[k]).name@ == name && symbols[k].line_start
            == line)
}

/// No symbol with that name starts on that line.
pub open spec fn is_absent(symbols: Seq<ParsedSymbol>, name: Seq<char>, line: usize) -> bool {
    forall|k: int|
        0 <= k < symbols.len() ==> !((#[trigger] symbols[k]).name@ == name && symbols[k].line_start
            == line)
}

/// The import at `i` is the first one that binds `name`.
pub open spec fn binds_first(imports: Seq<RawImport>, i: int, name: Seq<char>) -> bool {
    &&& 0 <= i < imports.len()
    &&& text::texts(imports[i].imported_names@).contains(name)
    &&& forall|k: int|
        0 <= k < i ==> !text::texts((#[trigger] imports[k]).imported_names@).contains(name)
}

pub open spec fn binds_none(imports: Seq<RawImport>, name: Seq<char>) -> bool {
    forall|k: int|
        0 <= k < imports.len() ==> !text::texts(
            (#[trigger] imports[k]).imported_names@,
        ).contains(name)
}

proof fn lemma_last_where<T>(s: Seq<T>, p: spec_fn(T) -> bool, j: int)
    requires
        0 <= j < s.len(),
        p(s[j]),
        forall|k: int| j < k < s.len() ==> !p(#[trigger] s[k]),
    ensures
        extraction::last_where(s, p) == Some(s[j]),
    decreases s.len(),
{
    if j < s.len() - 1 {
        assert(!p(s[s.len() - 1]));
        let less = s.drop_last();
        assert(forall|k: int| 0 <= k < less.len() ==> less[k] == s[k]);
        lemma_last_where(less, p, j);
    }
}

proof fn lemma_last_where_none<T>(s: Seq<T>, p: spec_fn(T) -> bool)
    requires
        forall|k: int| 0 <= k < s.len() ==> !p(#[trigger] s[k]),
    ensures
        extraction::last_where(s, p) is None,
    decreases s.len(),
{
    if s.len() > 0 {
        assert(!p(s[s.len() - 1]));
        let less = s.drop_last();
        assert(forall|k: int| 0 <= k < less.len() ==> less[k] == s[k]);
        lemma_last_where_none(less, p);
    }
}

/// Either no entry has the property, or some entry is the last with it.
proof fn lemma_last_index<T>(s: Seq<T>, p: spec_fn(T) -> bool) -> (j: int)
    ensures
        -1 <= j < s.len(),
        j >= 0 ==> p(s[j]),
        forall|k: int| j < k < s.len() ==> !p(#[trigger] s[k]),
    decreases s.len(),
{
    if s.len() == 0 {
        -1
    } else if p(s.last()) {
        s.len() - 1
    } else {
        let less = s.drop_last();
        let j = lemma_last_index(less, p);
        assert(forall|k: int| 0 <= k < less.len() ==> less[k] == s[k]);
        assert forall|k: int| j < k < s.len() implies !p(#[trigger] s[k]) by {
            if k < less.len() {
                assert(!p(less[k]));
            }
        }
        j
    }
}

/// The stored name of a place in the file: that of the last symbol with the
/// name on the line, and none where there is no such symbol.
pub proof fn lemma_located(symbols: Seq<ParsedSymbol>, name: Seq<char>, line: usize)
    ensures
        forall|j: int| #[trigger]
            stands(symbols, j, name, line) ==> extraction::located(symbols, name, line) == Some(
                symbols[j].qualified_name@,
            ),
        extraction::located(symbols, name, line) is None <==> is_absent(symbols, name, line),
{
    let p = extraction::placed(name, line);
    assert forall|j: int| #[trigger] stands(symbols, j, name, line) implies extraction::located(
        symbols,
        name,
        line,
    ) == Some(symbols[j].qualified_name@) by {
        lemma_last_where(symbols, p, j);
    }
    let j = lemma_last_index(symbols, p);
    if j < 0 {
        assert forall|k: int| 0 <= k < symbols.len() implies !((#[trigger] symbols[k]).name@ == name
            && symbols[k].line_start == line) by {
            assert(!p(symbols[k]));
        }
        lemma_last_where_none(symbols, p);
    } else {
        lemma_last_where(symbols, p, j);
        assert(p(symbols[j]));
    }
}

#[verifier::rlimit(40)]
proof fn lemma_bindings(imports: Seq<RawImport>, name: Seq<char>)
    ensures
        binds_none(imports, name) ==> extraction::bindings(imports).filter(
            extraction::binds(name),
        ).len() == 0,
        forall|i: int| #[trigger]
            binds_first(imports, i, name) ==> {
                let hits = extraction::bindings(imports).filter(extraction::binds(name));
                hits.len() > 0 && hits[0].1 == i
            },
    decreases imports.len(),
{
    reveal(Seq::filter);
    let p = extraction::binds(name);
    if imports.len() > 0 {
        let less = imports.drop_last();
        let at = imports.len() - 1;
        let own = text::texts(imports.last().imported_names@);
        let mine = own.map_values(|n: Seq<char>| (n, at));
        let old_hits = extraction::bindings(less).filter(p);
        lemma_bindings(less, name);
        Seq::filter_distributes_over_add(extraction::bindings(less), mine, p);
        let hits = extraction::bindings(imports).filter(p);
        assert(hits == old_hits + mine.filter(p));
        assert(forall|k: int| 0 <= k < less.len() ==> less[k] == imports[k]);
        if !own.contains(name) {
            if mine.filter(p).len() > 0 {
                mine.lemma_filter_pred(p, 0);
                assert(mine.filter(p).contains(mine.filter(p)[0]));
                mine.lemma_filter_contains_rev(p, mine.filter(p)[0]);
                let k = choose|k: int| 0 <= k < mine.len() && mine[k] == mine.filter(p)[0];
                assert(own[k] == name);
            }
            assert(hits =~= old_hits);
        } else {
            let k = choose|k: int| 0 <= k < own.len() && own[k] == name;
            assert(mine[k].0 == name);
            mine.lemma_filter_contains(p, k);
            let m = mine.filter(p);
            assert(m.len() > 0);
            assert(m.contains(m[0]));
            mine.lemma_filter_contains_rev(p, m[0]);
            let z = choose|z: int| 0 <= z < mine.len() && mine[z] == m[0];
            assert(m[0].1 == at);
        }
        assert forall|i: int| #[trigger] binds_first(imports, i, name) implies hits.len() > 0
            && hits[0].1 == i by {
            if i < at {
                assert(binds_first(less, i, name));
                assert(hits[0] == old_hits[0]);
            } else {
                assert(binds_none(less, name));
                assert(hits =~= mine.filter(p));
            }
        }
        if binds_none(imports, name) {
            assert(binds_none(less, name));
            assert(imports[at] == imports.last());
        }
    }
}

/// The import that binds a name is the first of the file that lists it.
pub proof fn lemma_binder(imports: Seq<RawImport>, name: Seq<char>)
    ensures
        binds_none(imports, name) ==> extraction::binder(imports, name) is None,
        forall|i: int| #[trigger]
            binds_first(imports, i, name) ==> extraction::binder(imports, name) == Some(imports[i]),
{
    lemma_bindings(imports, name);
}

/// The receiver names a type in the source text.
pub open spec fn on_type_path(c: RawCall) -> bool {
    c.receiver is Some && c.receiver_is_type_path
}

/// The site is the row of the call `c`: where it stands, who makes it, what it
/// calls and how it is written.
pub open spec fn places(
    s: CallSiteView,
    rel: Seq<char>,
    symbols: Seq<ParsedSymbol>,
    c: RawCall,
) -> bool {
    &&& forall|j: int| #[trigger]
        stands(symbols, j, c.enclosing_name@, c.enclosing_line) ==> s.enclosing_qn
            == symbols[j].qualified_name@
    &&& is_absent(symbols, c.enclosing_name@, c.enclosing_line) ==> c.enclosing_name@
        == "<module>"@ && s.enclosing_qn == rel + "::"@ + "<module>"@
    &&& c.alias is None ==> s.callee == c.callee@
    &&& c.alias matches Some(a) ==> s.callee == a@
    &&& s.line == c.line
    &&& s.callee_start_byte matches Some(b) && b == c.callee_start_byte
    &&& s.callee_end_byte matches Some(b) && b == c.callee_end_byte
    &&& s.receiver == edges::opt_text(c.receiver)
    &&& s.arg_count == c.arg_count
    &&& s.looks_option_or_result_chained == c.looks_option_or_result_chained
    &&& s.edge_kind == "call"@
}

/// The span of the site relative to its caller: the distance from the caller's
/// first byte where the caller is a symbol that starts at or before the call,
/// and none otherwise; the version says which of the two it is.
pub open spec fn spans(s: CallSiteView, symbols: Seq<ParsedSymbol>, c: RawCall) -> bool {
    &&& forall|j: int| #[trigger]
        stored_last(symbols, j, s.enclosing_qn) && symbols[j].start_byte <= c.callee_start_byte
            ==> s.identity_version == 3 && (s.callee_start_rel matches Some(a)
            && symbols[j].start_byte + a == c.callee_start_byte) && (s.callee_end_rel matches Some(
            b,
        ) && symbols[j].start_byte + b == c.callee_end_byte)
    &&& forall|j: int| #[trigger]
        stored_last(symbols, j, s.enclosing_qn) && symbols[j].start_byte > c.callee_start_byte
            ==> s.identity_version == 2 && s.callee_start_rel is None && s.callee_end_rel is None
    &&& (forall|k: int|
        0 <= k < symbols.len() ==> (#[trigger] symbols[k]).qualified_name@ != s.enclosing_qn)
        ==> s.identity_version == 2 && s.callee_start_rel is None && s.callee_end_rel is None
}

/// The symbol at `j` is the last one stored under `q`.
pub open spec fn stored_last(symbols: Seq<ParsedSymbol>, j: int, q: Seq<char>) -> bool {
    &&& 0 <= j < symbols.len()
    &&& symbols[j].qualified_name@ == q
    &&& forall|k: int| j < k < symbols.len() ==> (#[trigger] symbols[k]).qualified_name@ != q
}

/// What the site says of the target of a call that is written on a type path:
/// the type as the source spells it, or the enclosing class for Rust's `Self`.
pub open spec fn targets_type_path(s: CallSiteView, lang: Seq<char>, c: RawCall) -> bool {
    &&& s.import_path is None
    &&& s.module_hint == edges::opt_text(c.module_hint)
    &&& s.target_class is Some
    &&& (lang != "rust"@ || c.receiver->Some_0@ != "Self"@ || c.enclosing_class is None)
        ==> s.target_class == Some(c.receiver->Some_0@)
    &&& (lang == "rust"@ && c.receiver->Some_0@ == "Self"@ && c.enclosing_class is Some)
        ==> s.target_class == Some(c.enclosing_class->Some_0@)
}

/// What the site says of the target of any other call. It keeps the path of the
/// first tier. A class is named only where the first tier found nothing and
/// there is a receiver: the one of the second tier, or for C# a receiver that is
/// spelled like a type. The module hint is the call's own; where it has none,
/// and nothing else is known, it is that of the import that binds the receiver.
pub open spec fn targets(
    s: CallSiteView,
    lang: Seq<char>,
    imports: Seq<RawImport>,
    c: RawCall,
) -> bool {
    let open = c.receiver is Some && c.tier1 == EdgeConfidence::Textual;
    let spelled = c.tier2 is None && lang == "csharp"@ && c.receiver_is_type_like;
    &&& s.import_path == edges::opt_text(c.tier1_path)
    &&& !open ==> s.target_class is None && s.module_hint == edges::opt_text(c.module_hint)
    &&& open && c.tier2 is Some ==> s.target_class == Some(c.tier2->Some_0@) && s.module_hint
        == edges::opt_text(c.module_hint)
    &&& open && spelled ==> s.target_class == Some(c.receiver->Some_0@) && s.module_hint
        == edges::opt_text(c.module_hint)
    &&& open && c.tier2 is None && !spelled ==> s.target_class is None
    &&& open && c.tier2 is None && !spelled && c.module_hint is Some ==> s.module_hint == Some(
        c.module_hint->Some_0@,
    )
    &&& open && c.tier2 is None && !spelled && c.module_hint is None ==> {
        &&& binds_none(imports, c.receiver->Some_0@) ==> s.module_hint is None
        &&& forall|i: int| #[trigger]
            binds_first(imports, i, c.receiver->Some_0@) ==> s.module_hint == edges::opt_text(
                imports[i].last_segment,
            )
    }
}

/// How sure the site is. What is known by a class or an imported module is
/// inferred; else it is as sure as the first tier. A callee that was resolved
/// formally makes the site formal, unless it is resolved already.
pub open spec fn is_as_sure(s: CallSiteView, c: RawCall, formal: Seq<Seq<char>>) -> bool {
    let known = s.target_class is Some || s.module_hint != edges::opt_text(c.module_hint);
    let lifted = formal.contains(s.callee);
    &&& known && lifted ==> s.confidence == "formal"@
    &&& known && !lifted ==> s.confidence == "inferred"@
    &&& !known && c.tier1 == EdgeConfidence::Resolved ==> s.confidence == "resolved"@
    &&& !known && c.tier1 != EdgeConfidence::Resolved && lifted ==> s.confidence == "formal"@
    &&& !known && !lifted ==> types::parsed(s.confidence) == Some(c.tier1)
}

/// How the target class is known: by the file where it is the enclosing class,
/// else by the first import that binds it, else not at all.
pub open spec fn knows_class(
    s: CallSiteView,
    rel: Seq<char>,
    imports: Seq<RawImport>,
    c: RawCall,
) -> bool {
    let enclosing = edges::opt_text(c.enclosing_class);
    &&& s.target_class is None ==> s.target_type_kind is None && s.target_type_qn is None
    &&& s.target_class matches Some(cls) ==> {
        &&& enclosing == Some(cls) ==> s.target_type_kind == Some("resolved_same_file"@)
            && s.target_type_qn == Some(rel)
        &&& enclosing != Some(cls) && binds_none(imports, cls) ==> s.target_type_kind == Some(
            "unresolved"@,
        ) && s.target_type_qn is None
        &&& enclosing != Some(cls) ==> forall|i: int| #[trigger]
            binds_first(imports, i, cls) ==> s.target_type_kind == Some("resolved_import"@)
                && s.target_type_qn == Some(imports[i].module_name@)
    }
}

/// Everything that the site of a call says.
pub open spec fn records(
    s: CallSiteView,
    rel: Seq<char>,
    lang: Seq<char>,
    symbols: Seq<ParsedSymbol>,
    imports: Seq<RawImport>,
    formal: Seq<Seq<char>>,
    c: RawCall,
) -> bool {
    &&& places(s, rel, symbols, c)
    &&& spans(s, symbols, c)
    &&& on_type_path(c) ==> targets_type_path(s, lang, c)
    &&& !on_type_path(c) ==> targets(s, lang, imports, c)
    &&& is_as_sure(s, c, formal)
    &&& knows_class(s, rel, imports, c)
}

proof fn lemma_spans(
    rel: Seq<char>,
    lang: Seq<char>,
    symbols: Seq<ParsedSymbol>,
    imports: Seq<RawImport>,
    formal: Seq<Seq<char>>,
    c: RawCall,
    q: Seq<char>,
)
    requires
        extraction::call_fits(c),
    ensures
        spans(extraction::site_by(rel, lang, symbols, imports, formal, c, q), symbols, c),
{
    let s = extraction::site_by(rel, lang, symbols, imports, formal, c, q);
    let p = extraction::qualified(q);
    assert forall|j: int| #[trigger] stored_last(symbols, j, q) implies extraction::start_of(
        symbols,
        q,
    ) == Some(symbols[j].start_byte) by {
        lemma_last_where(symbols, p, j);
    }
    if forall|k: int| 0 <= k < symbols.len() ==> (#[trigger] symbols[k]).qualified_name@ != q {
        lemma_last_where_none(symbols, p);
    }
}

proof fn lemma_targets(
    rel: Seq<char>,
    lang: Seq<char>,
    symbols: Seq<ParsedSymbol>,
    imports: Seq<RawImport>,
    formal: Seq<Seq<char>>,
    c: RawCall,
    q: Seq<char>,
)
    ensures
        ({
            let s = extraction::site_by(rel, lang, symbols, imports, formal, c, q);
            &&& on_type_path(c) ==> targets_type_path(s, lang, c)
            &&& !on_type_path(c) ==> targets(s, lang, imports, c)
            &&& is_as_sure(s, c, formal)
            &&& knows_class(s, rel, imports, c)
        }),
{
    let s = extraction::site_by(rel, lang, symbols, imports, formal, c, q);
    if c.receiver is Some {
        lemma_binder(imports, c.receiver->Some_0@);
    }
    if s.target_class is Some {
        lemma_binder(imports, s.target_class->Some_0);
    }
    graph_laws::lemma_confidences("formal"@);
    graph_laws::lemma_confidences("resolved"@);
    graph_laws::lemma_confidences("inferred"@);
    graph_laws::lemma_confidences("textual"@);
    graph_laws::lemma_confidences("ambiguous"@);
    graph_laws::lemma_confidences("unresolved"@);
}

proof fn lemma_records(
    rel: Seq<char>,
    lang: Seq<char>,
    symbols: Seq<ParsedSymbol>,
    imports: Seq<RawImport>,
    formal: Seq<Seq<char>>,
    c: RawCall,
    q: Seq<char>,
)
    requires
        extraction::call_fits(c),
        extraction::caller(rel, symbols, c) == Some(q),
    ensures
        records(
            extraction::site_by(rel, lang, symbols, imports, formal, c, q),
            rel,
            lang,
            symbols,
            imports,
            formal,
            c,
        ),
{
    lemma_located(symbols, c.enclosing_name@, c.enclosing_line);
    lemma_spans(rel, lang, symbols, imports, formal, c, q);
    lemma_targets(rel, lang, symbols, imports, formal, c, q);
}

/// A call is recorded where it is not rooted outside of the project and stands
/// in a symbol of the file or at its top level.
pub open spec fn is_recorded(symbols: Seq<ParsedSymbol>, c: RawCall) -> bool {
    !c.rooted_outside && (c.enclosing_name@ == "<module>"@ || !is_absent(
        symbols,
        c.enclosing_name@,
        c.enclosing_line,
    ))
}

proof fn lemma_caller(rel: Seq<char>, symbols: Seq<ParsedSymbol>, c: RawCall)
    ensures
        extraction::caller(rel, symbols, c) is Some <==> is_recorded(symbols, c),
{
    lemma_located(symbols, c.enclosing_name@, c.enclosing_line);
}

proof fn lemma_site_of(
    rel: Seq<char>,
    lang: Seq<char>,
    symbols: Seq<ParsedSymbol>,
    imports: Seq<RawImport>,
    formal: Seq<Seq<char>>,
    calls: Seq<RawCall>,
    n: nat,
    i: int,
) -> (k: int)
    requires
        0 <= i < n <= calls.len(),
        extraction::call_fits(calls[i]),
        is_recorded(symbols, calls[i]),
    ensures
        0 <= k < extraction::sites_of(rel, lang, symbols, imports, formal, calls, n).len(),
        records(
            extraction::sites_of(rel, lang, symbols, imports, formal, calls, n)[k],
            rel,
            lang,
            symbols,
            imports,
            formal,
            calls[i],
        ),
    decreases n,
{
    let m = (n - 1) as nat;
    let init = extraction::sites_of(rel, lang, symbols, imports, formal, calls, m);
    let all = extraction::sites_of(rel, lang, symbols, imports, formal, calls, n);
    if i == m {
        lemma_caller(rel, symbols, calls[i]);
        let q = extraction::caller(rel, symbols, calls[i])->Some_0;
        lemma_records(rel, lang, symbols, imports, formal, calls[i], q);
        assert(all[init.len() as int] == extraction::site_by(
            rel,
            lang,
            symbols,
            imports,
            formal,
            calls[i],
            q,
        ));
        init.len() as int
    } else {
        let k = lemma_site_of(rel, lang, symbols, imports, formal, calls, m, i);
        assert(all[k] == init[k]);
        k
    }
}

/// Every call that is not rooted outside of the project and stands in a symbol
/// of the file, or at its top level, has a call site, and the site says of it
/// what the source and the tiers say.
pub proof fn lemma_call_has_site(
    f: ExtractedFile,
    rel: Seq<char>,
    lang: Seq<char>,
    raw: Seq<ParsedSymbol>,
    facts: TreeFacts,
    patterns: Seq<Seq<char>>,
    formal: Seq<Seq<char>>,
    i: int,
) -> (k: int)
    requires
        extraction::tree_rows(f, rel, lang, raw, facts, patterns, formal),
        extraction::facts_fit(facts),
        0 <= i < facts.calls@.len(),
        is_recorded(f.symbols@, facts.calls@[i]),
    ensures
        0 <= k < f.call_sites@.len(),
        records(
            f.call_sites@[k]@,
            rel,
            lang,
            f.symbols@,
            facts.imports@,
            formal,
            facts.calls@[i],
        ),
{
    let k = lemma_site_of(
        rel,
        lang,
        f.symbols@,
        facts.imports@,
        formal,
        facts.calls@,
        facts.calls@.len(),
        i,
    );
    assert(extraction::site_views(f.call_sites@)[k] == f.call_sites@[k]@);
    k
}

proof fn lemma_site_from(
    rel: Seq<char>,
    lang: Seq<char>,
    symbols: Seq<ParsedSymbol>,
    imports: Seq<RawImport>,
    formal: Seq<Seq<char>>,
    calls: Seq<RawCall>,
    n: nat,
    k: int,
) -> (i: int)
    requires
        n <= calls.len(),
        forall|x: int| 0 <= x < calls.len() ==> extraction::call_fits(#[trigger] calls[x]),
        0 <= k < extraction::sites_of(rel, lang, symbols, imports, formal, calls, n).len(),
    ensures
        0 <= i < n,
        is_recorded(symbols, calls[i]),
        records(
            extraction::sites_of(rel, lang, symbols, imports, formal, calls, n)[k],
            rel,
            lang,
            symbols,
            imports,
            formal,
            calls[i],
        ),
        k == extraction::sites_of(rel, lang, symbols, imports, formal, calls, i as nat).len(),
    decreases n,
{
    let m = (n - 1) as nat;
    let init = extraction::sites_of(rel, lang, symbols, imports, formal, calls, m);
    let all = extraction::sites_of(rel, lang, symbols, imports, formal, calls, n);
    if k < init.len() {
        let i = lemma_site_from(rel, lang, symbols, imports, formal, calls, m, k);
        assert(all[k] == init[k]);
        i
    } else {
        let c = calls[m as int];
        lemma_caller(rel, symbols, c);
        let q = extraction::caller(rel, symbols, c)->Some_0;
        lemma_records(rel, lang, symbols, imports, formal, c, q);
        assert(all[k] == extraction::site_by(rel, lang, symbols, imports, formal, c, q));
        m as int
    }
}

/// Every call site of the file is that of a call in it, and none of a call that
/// is rooted outside or stands nowhere.
pub proof fn lemma_site_has_call(
    f: ExtractedFile,
    rel: Seq<char>,
    lang: Seq<char>,
    raw: Seq<ParsedSymbol>,
    facts: TreeFacts,
    patterns: Seq<Seq<char>>,
    formal: Seq<Seq<char>>,
    k: int,
) -> (i: int)
    requires
        extraction::tree_rows(f, rel, lang, raw, facts, patterns, formal),
        extraction::facts_fit(facts),
        0 <= k < f.call_sites@.len(),
    ensures
        0 <= i < facts.calls@.len(),
        is_recorded(f.symbols@, facts.calls@[i]),
        records(
            f.call_sites@[k]@,
            rel,
            lang,
            f.symbols@,
            facts.imports@,
            formal,
            facts.calls@[i],
        ),
{
    assert(extraction::site_views(f.call_sites@)[k] == f.call_sites@[k]@);
    lemma_site_from(
        rel,
        lang,
        f.symbols@,
        facts.imports@,
        formal,
        facts.calls@,
        facts.calls@.len(),
        k,
    )
}

/// The call site of a call that is not written on a type path keeps the path
/// that the first tier resolved the callee to.
pub proof fn lemma_import_path_kept(
    f: ExtractedFile,
    rel: Seq<char>,
    lang: Seq<char>,
    raw: Seq<ParsedSymbol>,
    facts: TreeFacts,
    patterns: Seq<Seq<char>>,
    formal: Seq<Seq<char>>,
    i: int,
) -> (k: int)
    requires
        extraction::tree_rows(f, rel, lang, raw, facts, patterns, formal),
        extraction::facts_fit(facts),
        0 <= i < facts.calls@.len(),
        is_recorded(f.symbols@, facts.calls@[i]),
        facts.calls@[i].receiver is None || !facts.calls@[i].receiver_is_type_path,
    ensures
        0 <= k < f.call_sites@.len(),
        f.call_sites@[k]@.line == facts.calls@[i].line,
        f.call_sites@[k]@.import_path == edges::opt_text(facts.calls@[i].tier1_path),
{
    lemma_call_has_site(f, rel, lang, raw, facts, patterns, formal, i)
}

/// Kinds that can extend or be extended.
pub open spec fn is_class(k: SymbolKind) -> bool {
    k == SymbolKind::Class || k == SymbolKind::Struct || k == SymbolKind::Trait || k
        == SymbolKind::Interface || k == SymbolKind::Enum
}

/// The symbol at `j` is the last class of that name.
pub open spec fn is_last_class(symbols: Seq<ParsedSymbol>, j: int, name: Seq<char>) -> bool {
    &&& 0 <= j < symbols.len()
    &&& symbols[j].name@ == name
    &&& is_class(symbols[j].kind)
    &&& forall|k: int|
        j < k < symbols.len() ==> !((#[trigger] symbols[k]).name@ == name && is_class(
            symbols[k].kind,
        ))
}

pub open spec fn no_class(symbols: Seq<ParsedSymbol>, name: Seq<char>) -> bool {
    forall|k: int|
        0 <= k < symbols.len() ==> !((#[trigger] symbols[k]).name@ == name && is_class(
            symbols[k].kind,
        ))
}

/// The class of a name is the last class-like symbol that bears it.
pub proof fn lemma_class_named(symbols: Seq<ParsedSymbol>, name: Seq<char>)
    ensures
        forall|j: int| #[trigger]
            is_last_class(symbols, j, name) ==> extraction::class_named(symbols, name) == Some(
                symbols[j].qualified_name@,
            ),
        extraction::class_named(symbols, name) is None <==> no_class(symbols, name),
{
    let p = extraction::class_called(name);
    assert forall|j: int| #[trigger] is_last_class(symbols, j, name) implies extraction::class_named(
        symbols,
        name,
    ) == Some(symbols[j].qualified_name@) by {
        lemma_last_where(symbols, p, j);
    }
    let j = lemma_last_index(symbols, p);
    if j < 0 {
        assert forall|k: int| 0 <= k < symbols.len() implies !((#[trigger] symbols[k]).name@ == name
            && is_class(symbols[k].kind)) by {
            assert(!p(symbols[k]));
        }
        lemma_last_where_none(symbols, p);
    } else {
        lemma_last_where(symbols, p, j);
        assert(p(symbols[j]));
    }
}

/// The clause has a declarer: a symbol of the class's name on its line, or else
/// a class of that name in the file.
pub open spec fn is_declared(symbols: Seq<ParsedSymbol>, t: RawTypeRelation) -> bool {
    !is_absent(symbols, t.class_name@, t.class_line) || !no_class(symbols, t.class_name@)
}

/// The row is the relation of the clause: from its declarer, and to the class of
/// the target's name where the file has one; then it is resolved by the file
/// itself, and else only textual.
pub open spec fn relates(
    r: edges::TypeRelationView,
    rel: Seq<char>,
    symbols: Seq<ParsedSymbol>,
    t: RawTypeRelation,
) -> bool {
    &&& forall|j: int| #[trigger]
        stands(symbols, j, t.class_name@, t.class_line) ==> r.from_symbol
            == symbols[j].qualified_name@
    &&& is_absent(symbols, t.class_name@, t.class_line) ==> forall|j: int| #[trigger]
        is_last_class(symbols, j, t.class_name@) ==> r.from_symbol == symbols[j].qualified_name@
    &&& r.relation_kind == t.relation_kind@
    &&& r.target_text == t.target_text@
    &&& r.source_path == rel
    &&& r.line == t.class_line
    &&& forall|j: int| #[trigger]
        is_last_class(symbols, j, t.target_text@) ==> r.to_symbol == Some(
            symbols[j].qualified_name@,
        ) && r.confidence == "resolved"@ && r.resolution_source == Some("same_file_ast"@)
    &&& no_class(symbols, t.target_text@) ==> r.to_symbol is None && r.confidence == "textual"@
        && r.resolution_source is None
}

proof fn lemma_relation_row(
    rel: Seq<char>,
    symbols: Seq<ParsedSymbol>,
    t: RawTypeRelation,
)
    ensures
        extraction::declarer(symbols, t) is Some <==> is_declared(symbols, t),
        extraction::declarer(symbols, t) matches Some(q) ==> relates(
            extraction::relation_by(rel, symbols, t, q),
            rel,
            symbols,
            t,
        ),
{
    lemma_located(symbols, t.class_name@, t.class_line);
    lemma_class_named(symbols, t.class_name@);
    lemma_class_named(symbols, t.target_text@);
}

proof fn lemma_relation_of(
    rel: Seq<char>,
    symbols: Seq<ParsedSymbol>,
    raw: Seq<RawTypeRelation>,
    n: nat,
    i: int,
) -> (k: int)
    requires
        0 <= i < n <= raw.len(),
        is_declared(symbols, raw[i]),
    ensures
        0 <= k < extraction::relations_of(rel, symbols, raw, n).len(),
        relates(extraction::relations_of(rel, symbols, raw, n)[k], rel, symbols, raw[i]),
    decreases n,
{
    let m = (n - 1) as nat;
    let init = extraction::relations_of(rel, symbols, raw, m);
    lemma_relation_row(rel, symbols, raw[i]);
    if i == m {
        init.len() as int
    } else {
        let k = lemma_relation_of(rel, symbols, raw, m, i);
        assert(extraction::relations_of(rel, symbols, raw, n)[k] == init[k]);
        k
    }
}

proof fn lemma_relation_from(
    rel: Seq<char>,
    symbols: Seq<ParsedSymbol>,
    raw: Seq<RawTypeRelation>,
    n: nat,
    k: int,
) -> (i: int)
    requires
        n <= raw.len(),
        0 <= k < extraction::relations_of(rel, symbols, raw, n).len(),
    ensures
        0 <= i < n,
        is_declared(symbols, raw[i]),
        relates(extraction::relations_of(rel, symbols, raw, n)[k], rel, symbols, raw[i]),
    decreases n,
{
    let m = (n - 1) as nat;
    let init = extraction::relations_of(rel, symbols, raw, m);
    if k < init.len() {
        let i = lemma_relation_from(rel, symbols, raw, m, k);
        assert(extraction::relations_of(rel, symbols, raw, n)[k] == init[k]);
        i
    } else {
        lemma_relation_row(rel, symbols, raw[m as int]);
        m as int
    }
}

/// Every clause with a declarer has its relation among the rows of the file.
pub proof fn lemma_clause_has_relation(
    f: ExtractedFile,
    rel: Seq<char>,
    lang: Seq<char>,
    raw: Seq<ParsedSymbol>,
    facts: TreeFacts,
    patterns: Seq<Seq<char>>,
    formal: Seq<Seq<char>>,
    i: int,
) -> (k: int)
    requires
        extraction::tree_rows(f, rel, lang, raw, facts, patterns, formal),
        0 <= i < facts.relations@.len(),
        is_declared(f.symbols@, facts.relations@[i]),
    ensures
        0 <= k < f.type_relations@.len(),
        relates(f.type_relations@[k]@, rel, f.symbols@, facts.relations@[i]),
{
    let k = lemma_relation_of(rel, f.symbols@, facts.relations@, facts.relations@.len(), i);
    assert(extraction::relation_views(f.type_relations@)[k] == f.type_relations@[k]@);
    k
}

/// Every relation among the rows of the file is that of a clause in it.
pub proof fn lemma_relation_has_clause(
    f: ExtractedFile,
    rel: Seq<char>,
    lang: Seq<char>,
    raw: Seq<ParsedSymbol>,
    facts: TreeFacts,
    patterns: Seq<Seq<char>>,
    formal: Seq<Seq<char>>,
    k: int,
) -> (i: int)
    requires
        extraction::tree_rows(f, rel, lang, raw, facts, patterns, formal),
        0 <= k < f.type_relations@.len(),
    ensures
        0 <= i < facts.relations@.len(),
        is_declared(f.symbols@, facts.relations@[i]),
        relates(f.type_relations@[k]@, rel, f.symbols@, facts.relations@[i]),
{
    assert(extraction::relation_views(f.type_relations@)[k] == f.type_relations@[k]@);
    lemma_relation_from(rel, f.symbols@, facts.relations@, facts.relations@.len(), k)
}

/// The row is the effect of the fact, on the symbol that it stands in.
pub open spec fn does(
    r: edges::SymbolEffectView,
    rel: Seq<char>,
    symbols: Seq<ParsedSymbol>,
    e: RawEffect,
) -> bool {
    &&& forall|j: int| #[trigger]
        stands(symbols, j, e.enclosing_name@, e.enclosing_line) ==> r.symbol_qn
            == symbols[j].qualified_name@
    &&& r.effect_kind == e.effect_kind@
    &&& r.target_text == e.target_text@
    &&& r.target_confidence == e.target_confidence@
    &&& r.source_path == rel
    &&& r.line == e.line
}

proof fn lemma_effect_of(
    rel: Seq<char>,
    symbols: Seq<ParsedSymbol>,
    raw: Seq<RawEffect>,
    n: nat,
    i: int,
) -> (k: int)
    requires
        0 <= i < n <= raw.len(),
        !is_absent(symbols, raw[i].enclosing_name@, raw[i].enclosing_line),
    ensures
        0 <= k < extraction::effects_of(rel, symbols, raw, n).len(),
        does(extraction::effects_of(rel, symbols, raw, n)[k], rel, symbols, raw[i]),
    decreases n,
{
    let m = (n - 1) as nat;
    let init = extraction::effects_of(rel, symbols, raw, m);
    lemma_located(symbols, raw[i].enclosing_name@, raw[i].enclosing_line);
    if i == m {
        init.len() as int
    } else {
        let k = lemma_effect_of(rel, symbols, raw, m, i);
        assert(extraction::effects_of(rel, symbols, raw, n)[k] == init[k]);
        k
    }
}

proof fn lemma_effect_from(
    rel: Seq<char>,
    symbols: Seq<ParsedSymbol>,
    raw: Seq<RawEffect>,
    n: nat,
    k: int,
) -> (i: int)
    requires
        n <= raw.len(),
        0 <= k < extraction::effects_of(rel, symbols, raw, n).len(),
    ensures
        0 <= i < n,
        !is_absent(symbols, raw[i].enclosing_name@, raw[i].enclosing_line),
        does(extraction::effects_of(rel, symbols, raw, n)[k], rel, symbols, raw[i]),
    decreases n,
{
    let m = (n - 1) as nat;
    let init = extraction::effects_of(rel, symbols, raw, m);
    if k < init.len() {
        let i = lemma_effect_from(rel, symbols, raw, m, k);
        assert(extraction::effects_of(rel, symbols, raw, n)[k] == init[k]);
        i
    } else {
        lemma_located(
            symbols,
            raw[m as int].enclosing_name@,
            raw[m as int].enclosing_line,
        );
        m as int
    }
}

/// Every effect that stands in a symbol of the file has its row.
pub proof fn lemma_fact_has_effect(
    f: ExtractedFile,
    rel: Seq<char>,
    lang: Seq<char>,
    raw: Seq<ParsedSymbol>,
    facts: TreeFacts,
    patterns: Seq<Seq<char>>,
    formal: Seq<Seq<char>>,
    i: int,
) -> (k: int)
    requires
        extraction::tree_rows(f, rel, lang, raw, facts, patterns, formal),
        0 <= i < facts.effects@.len(),
        !is_absent(
            f.symbols@,
            facts.effects@[i].enclosing_name@,
            facts.effects@[i].enclosing_line,
        ),
    ensures
        0 <= k < f.effects@.len(),
        does(f.effects@[k]@, rel, f.symbols@, facts.effects@[i]),
{
    let k = lemma_effect_of(rel, f.symbols@, facts.effects@, facts.effects@.len(), i);
    assert(extraction::effect_views(f.effects@)[k] == f.effects@[k]@);
    k
}

/// Every effect row of the file is that of a fact that stands in one of its
/// symbols.
pub proof fn lemma_effect_has_fact(
    f: ExtractedFile,
    rel: Seq<char>,
    lang: Seq<char>,
    raw: Seq<ParsedSymbol>,
    facts: TreeFacts,
    patterns: Seq<Seq<char>>,
    formal: Seq<Seq<char>>,
    k: int,
) -> (i: int)
    requires
        extraction::tree_rows(f, rel, lang, raw, facts, patterns, formal),
        0 <= k < f.effects@.len(),
    ensures
        0 <= i < facts.effects@.len(),
        !is_absent(
            f.symbols@,
            facts.effects@[i].enclosing_name@,
            facts.effects@[i].enclosing_line,
        ),
        does(f.effects@[k]@, rel, f.symbols@, facts.effects@[i]),
{
    assert(extraction::effect_views(f.effects@)[k] == f.effects@[k]@);
    lemma_effect_from(rel, f.symbols@, facts.effects@, facts.effects@.len(), k)
}

/// Each import has one edge, from the file to a module whose file is not known
/// yet, with the names that it binds.
pub proof fn lemma_import_edges(
    f: ExtractedFile,
    rel: Seq<char>,
    lang: Seq<char>,
    raw: Seq<ParsedSymbol>,
    facts: TreeFacts,
    patterns: Seq<Seq<char>>,
    formal: Seq<Seq<char>>,
)
    requires
        extraction::tree_rows(f, rel, lang, raw, facts, patterns, formal),
    ensures
        f.import_edges@.len() == facts.imports@.len(),
        forall|i: int|
            0 <= i < facts.imports@.len() ==> {
                let e = (#[trigger] f.import_edges@[i])@;
                &&& e.from_path == rel
                &&& e.to_path is None
                &&& e.module_name == facts.imports@[i].module_name@
                &&& e.symbols_used == extraction::json_list(
                    text::texts(facts.imports@[i].imported_names@),
                )
            },
{
    let v = extraction::import_views(f.import_edges@);
    assert(v.len() == f.import_edges@.len());
    assert forall|i: int| 0 <= i < facts.imports@.len() implies {
        let e = (#[trigger] f.import_edges@[i])@;
        &&& e.from_path == rel
        &&& e.to_path is None
        &&& e.module_name == facts.imports@[i].module_name@
        &&& e.symbols_used == extraction::json_list(
            text::texts(facts.imports@[i].imported_names@),
        )
    } by {
        assert(v[i] == f.import_edges@[i]@);
        assert(v[i] == extraction::import_edge(rel, facts.imports@[i]));
    }
}

/// The name of a symbol within its file.
pub open spec fn plain_name(rel: Seq<char>, s: ParsedSymbol) -> Seq<char> {
    if s.class_context is Some {
        rel + "::"@ + s.class_context->Some_0@ + "::"@ + s.name@
    } else {
        rel + "::"@ + s.name@
    }
}

/// Some symbol before the one at `i` is stored under `q`.
pub open spec fn is_taken(symbols: Seq<ParsedSymbol>, i: int, q: Seq<char>) -> bool {
    exists|j: int| 0 <= j < i && (#[trigger] symbols[j]).qualified_name@ == q
}

proof fn lemma_assigned_prefix(rel: Seq<char>, raw: Seq<ParsedSymbol>, n: nat, i: nat)
    requires
        i <= n <= raw.len(),
    ensures
        naming::assigned(rel, raw, n).len() == n,
        naming::assigned(rel, raw, n).take(i as int) == naming::assigned(rel, raw, i),
    decreases n,
{
    if n > 0 {
        lemma_assigned_prefix(rel, raw, (n - 1) as nat, if i == n { (n - 1) as nat } else { i });
        let init = naming::assigned(rel, raw, (n - 1) as nat);
        let all = naming::assigned(rel, raw, n);
        if i == n {
            assert(all.take(n as int) =~= all);
        } else {
            assert(all.take(i as int) =~= init.take(i as int));
        }
    } else {
        assert(naming::assigned(rel, raw, n).take(0) =~= naming::assigned(rel, raw, i));
    }
}

/// A symbol is stored under its own name, qualified by the file and its class,
/// where no symbol before it is; else with its line behind that; and where this
/// too is taken, with a number from two on behind it, the first that is free.
#[verifier::rlimit(40)]
pub proof fn lemma_stored_names(
    f: ExtractedFile,
    rel: Seq<char>,
    lang: Seq<char>,
    raw: Seq<ParsedSymbol>,
    facts: TreeFacts,
    patterns: Seq<Seq<char>>,
    formal: Seq<Seq<char>>,
    i: int,
)
    requires
        extraction::tree_rows(f, rel, lang, raw, facts, patterns, formal),
        0 <= i < raw.len(),
    ensures
        ({
            let q = f.symbols@[i].qualified_name@;
            let own = plain_name(rel, raw[i]);
            let lined = own + "#"@ + text::decimal(raw[i].line_start as nat);
            &&& !is_taken(f.symbols@, i, q)
            &&& !is_taken(f.symbols@, i, own) ==> q == own
            &&& is_taken(f.symbols@, i, own) && !is_taken(f.symbols@, i, lined) ==> q == lined
            &&& is_taken(f.symbols@, i, own) && is_taken(f.symbols@, i, lined) ==> exists|k: nat|
                {
                    &&& k >= 2
                    &&& q == #[trigger] naming::numbered(lined, k)
                    &&& q == lined + "#"@ + text::decimal(k)
                    &&& forall|j: nat|
                        2 <= j < k ==> is_taken(
                            f.symbols@,
                            i,
                            #[trigger] naming::numbered(lined, j),
                        )
                }
        }),
{
    let names = naming::assigned(rel, raw, raw.len());
    let before = naming::assigned(rel, raw, i as nat);
    let own = plain_name(rel, raw[i]);
    let lined = naming::numbered(own, raw[i].line_start as nat);
    let q = f.symbols@[i].qualified_name@;
    lemma_assigned_prefix(rel, raw, raw.len(), i as nat);
    lemma_assigned_prefix(rel, raw, raw.len(), (i + 1) as nat);
    let next = naming::assigned(rel, raw, (i + 1) as nat);
    assert(next == before.push(
        naming::free_name(before, naming::own_name(rel, raw[i]), raw[i].line_start as nat),
    ));
    assert(names[i] == names.take(i + 1)[i]);
    assert(q == naming::free_name(before, own, raw[i].line_start as nat));
    assert forall|x: Seq<char>| #[trigger] before.contains(x) <==> is_taken(f.symbols@, i, x) by {
        if before.contains(x) {
            let j = choose|j: int| 0 <= j < before.len() && before[j] == x;
            assert(names.take(i)[j] == names[j]);
            assert(f.symbols@[j].qualified_name@ == x);
        }
        if is_taken(f.symbols@, i, x) {
            let j = choose|j: int| 0 <= j < i && (#[trigger] f.symbols@[j]).qualified_name@ == x;
            assert(names.take(i)[j] == names[j]);
            assert(before[j] == x);
        }
    }
    naming::lemma_free_name(before, own, raw[i].line_start as nat);
    if before.contains(own) && before.contains(lined) {
        naming::lemma_first_free_exists(before, lined, 2);
        let k = choose|k: nat| naming::first_free(before, lined, k);
        assert(naming::first_free(before, lined, k));
        assert(q == naming::numbered(lined, k));
        assert forall|j: nat| 2 <= j < k implies is_taken(
            f.symbols@,
            i,
            #[trigger] naming::numbered(lined, j),
        ) by {
            assert(before.contains(naming::numbered(lined, j)));
        }
    }
}

/// Everything else of a symbol is stored as it was parsed, in this file; it is
/// an entry point where the parser says so, or where it is a function or method
/// that is configured as one by its name or its stored name.
pub proof fn lemma_stored_symbols(
    f: ExtractedFile,
    rel: Seq<char>,
    lang: Seq<char>,
    raw: Seq<ParsedSymbol>,
    facts: TreeFacts,
    patterns: Seq<Seq<char>>,
    formal: Seq<Seq<char>>,
    i: int,
)
    requires
        extraction::tree_rows(f, rel, lang, raw, facts, patterns, formal),
        0 <= i < raw.len(),
    ensures
        f.symbols@.len() == raw.len(),
        f.symbols@[i].path@ == rel,
        f.symbols@[i].is_entry_point <==> raw[i].is_entry_point || ((raw[i].kind
            == SymbolKind::Function || raw[i].kind == SymbolKind::Method) && (patterns.contains(
            raw[i].name@,
        ) || patterns.contains(f.symbols@[i].qualified_name@))),
        f.symbols@[i].name@ == raw[i].name@,
        f.symbols@[i].kind == raw[i].kind,
        f.symbols@[i].kind_text@ == raw[i].kind_text@,
        f.symbols@[i].language@ == raw[i].language@,
        f.symbols@[i].line_start == raw[i].line_start,
        f.symbols@[i].line_end == raw[i].line_end,
        f.symbols@[i].start_byte == raw[i].start_byte,
        f.symbols@[i].signature@ == raw[i].signature@,
        f.symbols@[i].docstring@ == raw[i].docstring@,
        f.symbols@[i].name_tokens@ == raw[i].name_tokens@,
        edges::opt_text(f.symbols@[i].class_context) == edges::opt_text(raw[i].class_context),
        f.symbols@[i].is_test == raw[i].is_test,
        f.symbols@[i].complexity == raw[i].complexity,
        f.symbols@[i].arity == raw[i].arity,
        f.symbols@[i].arity_variadic == raw[i].arity_variadic,
{
    assert(naming::stored_as(
        raw[i],
        f.symbols@[i],
        rel,
        naming::assigned(rel, raw, raw.len())[i],
        patterns,
    ));
}

/// Each SQL reference has one call site: who refers to what, where, how surely
/// and in what way, and nothing of the things that only calls have.
pub proof fn lemma_sql_sites(references: Seq<SqlReference>, i: int)
    requires
        extraction::references_fit(references),
        0 <= i < references.len(),
    ensures
        extraction::sql_sites(references).len() == references.len(),
        ({
            let s = extraction::sql_sites(references)[i];
            let r = references[i];
            &&& s.enclosing_qn == r.enclosing_qn@
            &&& s.callee == r.target_name@
            &&& s.line == r.line
            &&& s.callee_start_byte matches Some(b) && b == r.callee_start_byte
            &&& s.callee_end_byte matches Some(b) && b == r.callee_end_byte
            &&& types::parsed(s.confidence) == Some(r.confidence)
            &&& s.edge_kind == r.edge_kind@
            &&& s.identity_version == 2
            &&& s.callee_start_rel is None && s.callee_end_rel is None
            &&& s.receiver is None && s.target_class is None && s.module_hint is None
            &&& s.arg_count is None && s.import_path is None && s.target_type_kind is None
            &&& s.target_type_qn is None && !s.looks_option_or_result_chained
        }),
{
    graph_laws::lemma_confidences("formal"@);
    graph_laws::lemma_confidences("resolved"@);
    graph_laws::lemma_confidences("inferred"@);
    graph_laws::lemma_confidences("textual"@);
    graph_laws::lemma_confidences("ambiguous"@);
    graph_laws::lemma_confidences("unresolved"@);
}

} // verus!
