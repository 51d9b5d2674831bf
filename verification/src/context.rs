//! The tables a resolution pass looks candidates up in, and the ancestors of
//! every class.

use crate::edges;
use crate::maps::NamespaceMap;
use crate::names;
use crate::names::KeyIndex;
use crate::text;
use vstd::hash_map::StringHashMap;
use vstd::prelude::*;

verus! {

/// How far up the ancestors of a class are followed.
pub const MAX_INHERITANCE_DEPTH: usize = 12;

/// One symbol of the index.
pub struct SymbolRow {
    pub name: String,
    pub qualified_name: String,
    pub path: String,
    /// The class that declares the symbol, for a method.
    pub class_context: Option<String>,
    pub signature: String,
    pub language: String,
    /// The number of declared parameters, where it is known.
    pub arity: Option<i64>,
    /// Is `arity` only the smallest number of arguments?
    pub arity_variadic: bool,
}

/// One indexed file; `language` is absent for a file that is not parsed.
pub struct FileRow {
    pub path: String,
    pub language: Option<String>,
}

/// One module that a file brings into scope.
pub struct UsingRow {
    pub from_path: String,
    pub module_name: String,
}

/// One stored `extends` or `implements` fact.
pub struct TypeRelationRow {
    pub from_symbol: String,
    pub relation_kind: String,
    pub to_symbol: Option<String>,
    pub confidence: String,
}

// ---------------------------------------------------------------------------
// Rows picked out by a field
// ---------------------------------------------------------------------------

pub open spec fn named(n: Seq<char>) -> spec_fn(SymbolRow) -> bool {
    |r: SymbolRow| r.name@ == n
}

pub open spec fn has_qn(q: Seq<char>) -> spec_fn(SymbolRow) -> bool {
    |r: SymbolRow| r.qualified_name@ == q
}

/// Symbols called `n` that class `c` declares.
pub open spec fn member(n: Seq<char>, c: Seq<char>) -> spec_fn(SymbolRow) -> bool {
    |r: SymbolRow| r.name@ == n && edges::opt_text(r.class_context) == Some(c)
}

pub open spec fn in_class(c: Seq<char>) -> spec_fn(SymbolRow) -> bool {
    |r: SymbolRow| edges::opt_text(r.class_context) == Some(c)
}

pub open spec fn names_of(symbols: Seq<SymbolRow>) -> Seq<Seq<char>> {
    symbols.map_values(|r: SymbolRow| r.name@)
}

pub open spec fn qns_of(symbols: Seq<SymbolRow>) -> Seq<Seq<char>> {
    symbols.map_values(|r: SymbolRow| r.qualified_name@)
}

/// The bare name behind a qualified one: that of the last symbol with it.
pub open spec fn name_of_qn(symbols: Seq<SymbolRow>, q: Seq<char>) -> Option<Seq<char>> {
    let hits = symbols.filter(has_qn(q));
    if hits.len() == 0 {
        None
    } else {
        Some(hits.last().name@)
    }
}

/// The language of a path: that of the last parsed file with it.
pub open spec fn language_in(files: Seq<FileRow>, path: Seq<char>) -> Option<Seq<char>>
    decreases files.len(),
{
    if files.len() == 0 {
        None
    } else if files.last().path@ == path && files.last().language is Some {
        edges::opt_text(files.last().language)
    } else {
        language_in(files.drop_last(), path)
    }
}

// ---------------------------------------------------------------------------
// Ancestors
// ---------------------------------------------------------------------------

/// Only a relation whose own target is resolved says who an ancestor is; one
/// that is merely a matching text says nothing.
pub open spec fn trusted(r: TypeRelationRow) -> bool {
    (r.relation_kind@ == "extends"@ || r.relation_kind@ == "implements"@) && r.confidence@
        == "resolved"@ && r.to_symbol is Some
}

/// The trusted relations as pairs of bare names, child first; a relation that
/// names an unknown symbol is left out.
pub open spec fn parent_edges(
    symbols: Seq<SymbolRow>,
    relations: Seq<TypeRelationRow>,
) -> Seq<(Seq<char>, Seq<char>)>
    decreases relations.len(),
{
    if relations.len() == 0 {
        seq![]
    } else {
        let init = parent_edges(symbols, relations.drop_last());
        let r = relations.last();
        if trusted(r) {
            match (
                name_of_qn(symbols, r.from_symbol@),
                name_of_qn(symbols, r.to_symbol->0@),
            ) {
                (Some(c), Some(p)) => init.push((c, p)),
                _ => init,
            }
        } else {
            init
        }
    }
}

/// The parents that `edges` gives the class `c`, in order.
pub open spec fn parents_of(edges: Seq<(Seq<char>, Seq<char>)>, c: Seq<char>) -> Seq<Seq<char>>
    decreases edges.len(),
{
    if edges.len() == 0 {
        seq![]
    } else if edges.last().0 == c {
        parents_of(edges.drop_last(), c).push(edges.last().1)
    } else {
        parents_of(edges.drop_last(), c)
    }
}

/// The parents of every class of `level`, one class after the other.
pub open spec fn offers(edges: Seq<(Seq<char>, Seq<char>)>, level: Seq<Seq<char>>) -> Seq<Seq<char>>
    decreases level.len(),
{
    if level.len() == 0 {
        seq![]
    } else {
        offers(edges, level.drop_last()) + parents_of(edges, level.last())
    }
}

/// The names of `offered` that are not in `seen`, each once.
pub open spec fn fresh(seen: Seq<Seq<char>>, offered: Seq<Seq<char>>) -> Seq<Seq<char>>
    decreases offered.len(),
{
    if offered.len() == 0 {
        seq![]
    } else {
        let init = fresh(seen, offered.drop_last());
        if seen.contains(offered.last()) || init.contains(offered.last()) {
            init
        } else {
            init.push(offered.last())
        }
    }
}

/// The ancestors of `level` by distance, nearest first, at most `left` steps
/// away and without any name of `seen`.
pub open spec fn levels(
    edges: Seq<(Seq<char>, Seq<char>)>,
    level: Seq<Seq<char>>,
    seen: Seq<Seq<char>>,
    left: nat,
) -> Seq<Seq<Seq<char>>>
    decreases left,
{
    if level.len() == 0 || left == 0 {
        seq![]
    } else {
        let next = fresh(seen, offers(edges, level));
        if next.len() == 0 {
            seq![]
        } else {
            seq![next] + levels(edges, next, seen + next, (left - 1) as nat)
        }
    }
}

/// The ancestors of the class `c` by distance.
pub open spec fn ancestors(edges: Seq<(Seq<char>, Seq<char>)>, c: Seq<char>) -> Seq<Seq<Seq<char>>> {
    levels(edges, seq![c], seq![c], MAX_INHERITANCE_DEPTH as nat)
}

/// Lists of lists of texts.
pub open spec fn deep(v: Seq<Vec<String>>) -> Seq<Seq<Seq<char>>> {
    v.map_values(|x: Vec<String>| text::texts(x@))
}

/// The closure holds exactly the classes that have a parent, each with its
/// ancestors.
pub open spec fn is_closure(
    m: Map<Seq<char>, Vec<Vec<String>>>,
    edges: Seq<(Seq<char>, Seq<char>)>,
) -> bool {
    &&& forall|c: Seq<char>| #[trigger]
        m.contains_key(c) <==> parents_of(edges, c).len() > 0
    &&& forall|c: Seq<char>| #[trigger]
        m.contains_key(c) ==> deep(m[c]@) == ancestors(edges, c)
}

/// The bare name behind a qualified one, through the index `by_qn`.
fn lookup_name(symbols: &Vec<SymbolRow>, by_qn: &KeyIndex, q: &str) -> (r: Option<usize>)
    requires
        by_qn.wf(),
        by_qn@ == qns_of(symbols@),
    ensures
        match r {
            Some(i) => i < symbols@.len() && name_of_qn(symbols@, q@) == Some(
                symbols@[i as int].name@,
            ),
            None => name_of_qn(symbols@, q@) is None,
        },
{
    let hits = by_qn.get(q);
    proof {
        names::lemma_pick_positions(symbols@, by_qn@, q@, has_qn(q@));
        assert(names::pick(symbols@, names::at(hits@)).len() == hits@.len());
    }
    if hits.len() == 0 {
        return None;
    }
    let h = hits[hits.len() - 1];
    assert(names::pick(symbols@, names::at(hits@)).last() == symbols@[h as int]);
    Some(h)
}

fn is_trusted(r: &TypeRelationRow) -> (b: bool)
    ensures
        b == trusted(*r),
{
    (text::str_eq(r.relation_kind.as_str(), "extends") || text::str_eq(
        r.relation_kind.as_str(),
        "implements",
    )) && text::str_eq(r.confidence.as_str(), "resolved") && r.to_symbol.is_some()
}

/// A list of parent edges, indexed by the child.
struct ParentTable {
    children: KeyIndex,
    parents: Vec<String>,
}

impl ParentTable {
    spec fn view(&self) -> Seq<(Seq<char>, Seq<char>)> {
        Seq::new(self.parents@.len(), |i: int| (self.children@[i], self.parents@[i]@))
    }

    spec fn wf(&self) -> bool {
        self.children.wf() && self.children@.len() == self.parents@.len()
    }

    fn push(&mut self, c: &str, p: &str)
        requires
            old(self).wf(),
        ensures
            final(self).wf(),
            final(self)@ == old(self)@.push((c@, p@)),
    {
        let n = self.parents.len();
        self.children.push(c, n);
        self.parents.push(p.to_owned());
        assert(self@ =~= old(self)@.push((c@, p@)));
    }
}

proof fn lemma_parent_at(
    pairs: Seq<(Seq<char>, Seq<char>)>,
    keys: Seq<Seq<char>>,
    c: Seq<char>,
    i: int,
)
    requires
        keys.len() == pairs.len(),
        forall|j: int| 0 <= j < keys.len() ==> keys[j] == (#[trigger] pairs[j]).0,
    ensures
        parents_of(pairs, c).len() == names::positions(keys, c).len(),
        0 <= i < parents_of(pairs, c).len() ==> 0 <= names::positions(keys, c)[i] < pairs.len()
            && parents_of(pairs, c)[i] == pairs[names::positions(keys, c)[i]].1,
    decreases pairs.len(),
{
    if pairs.len() > 0 {
        let e = pairs.drop_last();
        let k = keys.drop_last();
        assert forall|j: int| 0 <= j < k.len() implies k[j] == (#[trigger] e[j]).0 by {
            assert(pairs[j] == e[j]);
        }
        lemma_parent_at(e, k, c, i);
        assert(keys.last() == pairs[pairs.len() - 1].0);
        if 0 <= i < parents_of(e, c).len() {
            assert(e[names::positions(k, c)[i]] == pairs[names::positions(k, c)[i]]);
        }
    }
}

/// One step up: the parents of `level` that `seen` does not hold.
fn next_level(table: &ParentTable, level: &Vec<String>, seen: &Vec<String>) -> (r: Vec<String>)
    requires
        table.wf(),
    ensures
        text::texts(r@) == fresh(text::texts(seen@), offers(table@, text::texts(level@))),
{
    let mut next: Vec<String> = Vec::new();
    let mut i: usize = 0;
    while i < level.len()
        invariant
            i <= level@.len(),
            table.wf(),
            text::texts(next@) == fresh(
                text::texts(seen@),
                offers(table@, text::texts(level@).take(i as int)),
            ),
        decreases level@.len() - i,
    {
        let c = level[i].as_str();
        let hits = table.children.get(c);
        let ghost base = offers(table@, text::texts(level@).take(i as int));
        let ghost ps = parents_of(table@, c@);
        proof {
            lemma_parent_at(table@, table.children@, c@, 0);
            assert forall|k: int| #![trigger ps[k]] 0 <= k < ps.len() implies ps[k]
                == table@[names::positions(table.children@, c@)[k]].1 by {
                lemma_parent_at(table@, table.children@, c@, k);
            }
            assert(names::at(hits@).len() == hits@.len());
            assert(base + ps.take(0) =~= base);
        }
        let mut j: usize = 0;
        while j < hits.len()
            invariant
                j <= hits@.len(),
                table.wf(),
                ps == parents_of(table@, c@),
                ps.len() == hits@.len(),
                names::within(hits@, table.children@.len()),
                names::at(hits@) == names::positions(table.children@, c@),
                forall|k: int|
                    #![trigger ps[k]]
                    0 <= k < ps.len() ==> ps[k] == table@[names::positions(
                        table.children@,
                        c@,
                    )[k]].1,
                text::texts(next@) == fresh(text::texts(seen@), base + ps.take(j as int)),
            decreases hits@.len() - j,
        {
            let h = hits[j];
            let p = table.parents[h].as_str();
            proof {
                assert(names::at(hits@)[j as int] == h);
                assert(ps[j as int] == p@);
                assert((base + ps.take(j + 1)).drop_last() =~= base + ps.take(j as int));
            }
            let ghost before = next@;
            if !text::has_text(seen, p) && !text::has_text(&next, p) {
                next.push(p.to_owned());
                assert(text::texts(next@) =~= text::texts(before).push(p@));
            }
            j += 1;
        }
        proof {
            assert(ps.take(ps.len() as int) =~= ps);
            assert(text::texts(level@).take(i + 1).drop_last() =~= text::texts(level@).take(
                i as int,
            ));
            assert(text::texts(level@).take(i + 1).last() == c@);
        }
        i += 1;
    }
    assert(text::texts(level@).take(level@.len() as int) =~= text::texts(level@));
    next
}

/// The ancestors of `start` by distance.
fn climb(table: &ParentTable, start: &str) -> (r: Vec<Vec<String>>)
    requires
        table.wf(),
    ensures
        deep(r@) == ancestors(table@, start@),
{
    let mut out: Vec<Vec<String>> = Vec::new();
    let mut level: Vec<String> = Vec::new();
    level.push(start.to_owned());
    let mut seen: Vec<String> = Vec::new();
    seen.push(start.to_owned());
    let mut left: usize = MAX_INHERITANCE_DEPTH;
    assert(text::texts(level@) =~= seq![start@]);
    assert(text::texts(seen@) =~= seq![start@]);
    while level.len() > 0 && left > 0
        invariant
            table.wf(),
            deep(out@) + levels(
                table@,
                text::texts(level@),
                text::texts(seen@),
                left as nat,
            ) =~= ancestors(table@, start@),
        decreases left,
    {
        let next = next_level(table, &level, &seen);
        let ghost before = out@;
        let ghost old_seen = text::texts(seen@);
        let ghost old_level = text::texts(level@);
        if next.len() > 0 {
            out.push(text::copy_texts(&next));
            assert(deep(out@) =~= deep(before).push(text::texts(next@)));
        }
        let mut k: usize = 0;
        while k < next.len()
            invariant
                k <= next@.len(),
                text::texts(seen@) =~= old_seen + text::texts(next@).take(k as int),
            decreases next@.len() - k,
        {
            let ghost was = seen@;
            seen.push(next[k].clone());
            assert(text::texts(seen@) =~= text::texts(was).push(next@[k as int]@));
            k += 1;
        }
        assert(text::texts(next@).take(next@.len() as int) =~= text::texts(next@));
        left -= 1;
        proof {
            assert(text::texts(next@).len() == next@.len());
            if next@.len() == 0 {
                assert(levels(table@, old_level, old_seen, (left + 1) as nat) =~= seq![]);
                assert(levels(table@, text::texts(next@), text::texts(seen@), left as nat)
                    =~= seq![]);
            }
        }
        level = next;
    }
    assert(text::texts(level@).len() == level@.len());
    assert(levels(table@, text::texts(level@), text::texts(seen@), left as nat) =~= seq![]);
    out
}

/// For every class with a resolved parent: its ancestors by distance.
pub fn build_inheritance_closure(
    symbols: &Vec<SymbolRow>,
    by_qn: &KeyIndex,
    relations: &Vec<TypeRelationRow>,
) -> (r: StringHashMap<Vec<Vec<String>>>)
    requires
        by_qn.wf(),
        by_qn@ == qns_of(symbols@),
    ensures
        is_closure(r@, parent_edges(symbols@, relations@)),
{
    let mut table = ParentTable { children: KeyIndex::new(), parents: Vec::new() };
    assert(table@ =~= Seq::<(Seq<char>, Seq<char>)>::empty());
    let mut starts: Vec<String> = Vec::new();
    let mut i: usize = 0;
    while i < relations.len()
        invariant
            i <= relations@.len(),
            by_qn.wf(),
            by_qn@ == qns_of(symbols@),
            table.wf(),
            table@ == parent_edges(symbols@, relations@.take(i as int)),
            starts@.len() == table@.len(),
            forall|k: int| 0 <= k < starts@.len() ==> (#[trigger] starts@[k])@ == table@[k].0,
        decreases relations@.len() - i,
    {
        let r = &relations[i];
        proof {
            assert(relations@.take(i + 1).drop_last() =~= relations@.take(i as int));
            assert(relations@.take(i + 1).last() == *r);
        }
        if is_trusted(r) {
            if let Some(to) = &r.to_symbol {
                let c = lookup_name(symbols, by_qn, r.from_symbol.as_str());
                let p = lookup_name(symbols, by_qn, to.as_str());
                if let Some(ci) = c {
                    if let Some(pi) = p {
                        let ghost before = table@;
                        table.push(symbols[ci].name.as_str(), symbols[pi].name.as_str());
                        starts.push(symbols[ci].name.clone());
                        proof {
                            assert forall|k: int| 0 <= k < starts@.len() implies (
                            #[trigger] starts@[k])@ == table@[k].0 by {
                                if k < before.len() {
                                    assert(table@[k] == before[k]);
                                }
                            }
                        }
                    }
                }
            }
        }
        i += 1;
    }
    assert(relations@.take(relations@.len() as int) =~= relations@);
    let ghost edges = table@;
    let mut closure: StringHashMap<Vec<Vec<String>>> = StringHashMap::new();
    let mut k: usize = 0;
    while k < starts.len()
        invariant
            k <= starts@.len(),
            table.wf(),
            edges == table@,
            starts@.len() == edges.len(),
            forall|j: int| 0 <= j < starts@.len() ==> (#[trigger] starts@[j])@ == edges[j].0,
            forall|c: Seq<char>| #[trigger]
                closure@.contains_key(c) <==> parents_of(edges.take(k as int), c).len() > 0,
            forall|c: Seq<char>| #[trigger]
                closure@.contains_key(c) ==> deep(closure@[c]@) == ancestors(edges, c),
        decreases starts@.len() - k,
    {
        let c = starts[k].as_str();
        proof {
            assert(edges.take(k + 1).drop_last() =~= edges.take(k as int));
            assert(edges.take(k + 1).last() == edges[k as int]);
        }
        if !closure.contains_key(c) {
            let up = climb(&table, c);
            closure.insert(c.to_owned(), up);
        }
        k += 1;
    }
    assert(edges.take(edges.len() as int) =~= edges);
    closure
}

// ---------------------------------------------------------------------------
// The tables
// ---------------------------------------------------------------------------

/// The rows at the given positions.
pub open spec fn rows(symbols: Seq<SymbolRow>, v: Seq<usize>) -> Seq<SymbolRow> {
    names::pick(symbols, names::at(v))
}

/// Everything a resolution pass looks up; built once for a pass.
pub struct ResolutionCtx {
    symbols: Vec<SymbolRow>,
    by_name: KeyIndex,
    by_qn: KeyIndex,
    path_lang: StringHashMap<String>,
    using_from: KeyIndex,
    using_modules: Vec<String>,
    namespaces: NamespaceMap,
    closure: StringHashMap<Vec<Vec<String>>>,
}

impl ResolutionCtx {
    pub closed spec fn wf(&self) -> bool {
        &&& self.by_name.wf()
        &&& self.by_name@ == names_of(self.symbols@)
        &&& self.by_qn.wf()
        &&& self.by_qn@ == qns_of(self.symbols@)
        &&& self.using_from.wf()
        &&& self.using_from@.len() == self.using_modules@.len()
        &&& self.namespaces.wf()
    }

    /// All symbols of the index.
    pub closed spec fn symbols(&self) -> Seq<SymbolRow> {
        self.symbols@
    }

    /// The language of a file, where it is known.
    pub closed spec fn language(&self, path: Seq<char>) -> Option<Seq<char>> {
        if self.path_lang@.contains_key(path) {
            Some(self.path_lang@[path]@)
        } else {
            None
        }
    }

    /// Which file brings which module into scope.
    pub closed spec fn usings(&self) -> Seq<(Seq<char>, Seq<char>)> {
        Seq::new(
            self.using_modules@.len(),
            |i: int| (self.using_from@[i], self.using_modules@[i]@),
        )
    }

    pub closed spec fn namespaces(&self) -> NamespaceMap {
        self.namespaces
    }

    /// The ancestors of a class by distance, for a class that has any.
    pub closed spec fn ancestors_of(&self, c: Seq<char>) -> Option<Seq<Seq<Seq<char>>>> {
        if self.closure@.contains_key(c) {
            Some(deep(self.closure@[c]@))
        } else {
            None
        }
    }

    /// Does `path` bring a namespace into scope that `file` declares?
    pub open spec fn in_scope(&self, path: Seq<char>, file: Seq<char>) -> bool {
        exists|i: int|
            0 <= i < self.usings().len() && (#[trigger] self.usings()[i]).0 == path
                && self.namespaces().declares(self.usings()[i].1, file)
    }

    pub fn symbol(&self, i: usize) -> (r: &SymbolRow)
        requires
            i < self.symbols().len(),
        ensures
            *r == self.symbols()[i as int],
    {
        &self.symbols[i]
    }

    /// The symbols called `name`.
    pub fn find_named(&self, name: &str) -> (r: Vec<usize>)
        requires
            self.wf(),
        ensures
            names::within(r@, self.symbols().len()),
            rows(self.symbols(), r@) == self.symbols().filter(named(name@)),
    {
        let r = self.by_name.get(name);
        proof {
            names::lemma_pick_positions(self.symbols@, self.by_name@, name@, named(name@));
        }
        r
    }

    /// The symbols called `name` that class `cls` declares.
    pub fn find_member(&self, name: &str, cls: &str) -> (r: Vec<usize>)
        requires
            self.wf(),
        ensures
            names::within(r@, self.symbols().len()),
            rows(self.symbols(), r@) == self.symbols().filter(member(name@, cls@)),
    {
        let all = self.find_named(name);
        let pred = |s: &SymbolRow| -> (b: bool)
            ensures
                b == in_class(cls@)(*s),
            {
                match &s.class_context {
                    Some(c) => text::str_eq(c.as_str(), cls),
                    None => false,
                }
            };
        let r = self.keep(&all, pred, Ghost(in_class(cls@)));
        proof {
            lemma_filter_twice(
                self.symbols(),
                named(name@),
                in_class(cls@),
                member(name@, cls@),
            );
        }
        r
    }

    /// The positions of `v` whose symbol satisfies `p`.
    pub(crate) fn keep<F: Fn(&SymbolRow) -> bool>(
        &self,
        v: &Vec<usize>,
        f: F,
        p: Ghost<spec_fn(SymbolRow) -> bool>,
    ) -> (r: Vec<usize>)
        requires
            names::within(v@, self.symbols().len()),
            forall|s: &SymbolRow| #[trigger] call_requires(f, (s,)),
            forall|s: &SymbolRow, b: bool| #[trigger] call_ensures(f, (s,), b) ==> b == p@(*s),
        ensures
            names::within(r@, self.symbols().len()),
            rows(self.symbols(), r@) == rows(self.symbols(), v@).filter(p@),
            r@.len() <= v@.len(),
    {
        let mut out: Vec<usize> = Vec::new();
        let mut i: usize = 0;
        let ghost all = rows(self.symbols(), v@);
        proof {
            reveal(Seq::filter);
            assert(rows(self.symbols(), out@) =~= all.take(0).filter(p@));
        }
        while i < v.len()
            invariant
                i <= v@.len(),
                all == rows(self.symbols(), v@),
                names::within(v@, self.symbols().len()),
                names::within(out@, self.symbols().len()),
                out@.len() <= i,
                rows(self.symbols(), out@) == all.take(i as int).filter(p@),
                forall|s: &SymbolRow| #[trigger] call_requires(f, (s,)),
                forall|s: &SymbolRow, b: bool| #[trigger] call_ensures(f, (s,), b) ==> b == p@(*s),
            decreases v@.len() - i,
        {
            let k = v[i];
            let ghost before = out@;
            proof {
                reveal(Seq::filter);
                assert(all.take(i + 1).drop_last() =~= all.take(i as int));
                assert(all.take(i + 1).last() == self.symbols()[k as int]);
            }
            if f(&self.symbols[k]) {
                out.push(k);
                assert(rows(self.symbols(), out@) =~= rows(self.symbols(), before).push(
                    self.symbols()[k as int],
                ));
            }
            i += 1;
        }
        assert(all.take(all.len() as int) =~= all);
        out
    }

    /// Is there a symbol with the qualified name `q`?
    pub fn knows(&self, q: &str) -> (r: bool)
        requires
            self.wf(),
        ensures
            r == qns_of(self.symbols()).contains(q@),
    {
        self.by_qn.has(q)
    }

    /// The language of a file.
    pub fn language_of(&self, path: &str) -> (r: Option<&String>)
        ensures
            match r {
                Some(l) => self.language(path@) == Some(l@),
                None => self.language(path@) is None,
            },
    {
        self.path_lang.get(path)
    }

    /// The last symbol with the qualified name `q` that satisfies `p`.
    pub(crate) fn last_with<F: Fn(&SymbolRow) -> bool>(
        &self,
        q: &str,
        f: F,
        p: Ghost<spec_fn(SymbolRow) -> bool>,
    ) -> (r: Option<usize>)
        requires
            self.wf(),
            forall|s: &SymbolRow| #[trigger] call_requires(f, (s,)),
            forall|s: &SymbolRow, b: bool| #[trigger] call_ensures(f, (s,), b) ==> b == p@(*s),
        ensures
            match r {
                Some(i) => i < self.symbols().len() && last_of(self.symbols(), q@, p@) == Some(
                    self.symbols()[i as int],
                ),
                None => last_of(self.symbols(), q@, p@) is None,
            },
    {
        let all = self.by_qn.get(q);
        proof {
            names::lemma_pick_positions(self.symbols@, self.by_qn@, q@, has_qn(q@));
        }
        let hits = self.keep(&all, f, p);
        assert(rows(self.symbols(), hits@).len() == hits@.len());
        if hits.len() == 0 {
            return None;
        }
        let h = hits[hits.len() - 1];
        assert(rows(self.symbols(), hits@).last() == self.symbols()[h as int]);
        Some(h)
    }

    /// Does `path` bring a namespace into scope that `file` declares?
    pub fn brings_in(&self, path: &str, file: &str) -> (r: bool)
        requires
            self.wf(),
        ensures
            r == self.in_scope(path@, file@),
    {
        let hits = self.using_from.get(path);
        let mut i: usize = 0;
        proof {
            names::lemma_positions_within(self.using_from@, path@);
        }
        while i < hits.len()
            invariant
                i <= hits@.len(),
                self.wf(),
                names::at(hits@) == names::positions(self.using_from@, path@),
                names::within(hits@, self.using_from@.len()),
                forall|k: int|
                    #![trigger names::positions(self.using_from@, path@)[k]]
                    0 <= k < names::positions(self.using_from@, path@).len()
                        ==> self.using_from@[names::positions(self.using_from@, path@)[k]] == path@,
                forall|k: int|
                    0 <= k < i ==> !self.namespaces().declares(
                        self.using_modules@[(#[trigger] hits@[k]) as int]@,
                        file@,
                    ),
            decreases hits@.len() - i,
        {
            let h = hits[i];
            if self.namespaces.contains(self.using_modules[h].as_str(), file) {
                proof {
                    assert(names::at(hits@)[i as int] == h);
                    assert(names::positions(self.using_from@, path@)[i as int] == h);
                    assert(self.usings()[h as int].0 == path@);
                }
                return true;
            }
            i += 1;
        }
        proof {
            if self.in_scope(path@, file@) {
                let j = choose|j: int|
                    0 <= j < self.usings().len() && (#[trigger] self.usings()[j]).0 == path@
                        && self.namespaces().declares(self.usings()[j].1, file@);
                assert(self.using_from@[j] == path@);
                names::lemma_position_of(self.using_from@, path@, j);
                let k = choose|k: int|
                    0 <= k < names::positions(self.using_from@, path@).len() && names::positions(
                        self.using_from@,
                        path@,
                    )[k] == j;
                assert(names::at(hits@)[k] == hits@[k]);
            }
        }
        false
    }

    /// The ancestors of a class by distance.
    pub fn ancestor_levels(&self, c: &str) -> (r: Option<&Vec<Vec<String>>>)
        ensures
            match r {
                Some(v) => self.ancestors_of(c@) == Some(deep(v@)),
                None => self.ancestors_of(c@) is None,
            },
    {
        self.closure.get(c)
    }
}

/// Symbols with the qualified name `q` that satisfy `p`; the last of them.
pub open spec fn last_of(
    symbols: Seq<SymbolRow>,
    q: Seq<char>,
    p: spec_fn(SymbolRow) -> bool,
) -> Option<SymbolRow> {
    let hits = symbols.filter(has_qn(q)).filter(p);
    if hits.len() == 0 {
        None
    } else {
        Some(hits.last())
    }
}

/// Filtering by one test and then by another is filtering by both.
pub proof fn lemma_filter_twice(
    s: Seq<SymbolRow>,
    p: spec_fn(SymbolRow) -> bool,
    q: spec_fn(SymbolRow) -> bool,
    both: spec_fn(SymbolRow) -> bool,
)
    requires
        forall|r: SymbolRow| #[trigger] both(r) == (p(r) && q(r)),
    ensures
        s.filter(p).filter(q) == s.filter(both),
    decreases s.len(),
{
    reveal(Seq::filter);
    if s.len() > 0 {
        lemma_filter_twice(s.drop_last(), p, q, both);
        let init = s.drop_last().filter(p);
        assert(both(s.last()) == (p(s.last()) && q(s.last())));
        if p(s.last()) {
            assert(init.push(s.last()).drop_last() =~= init);
        }
    }
}

/// The pairs of a file and a module it brings into scope.
pub open spec fn using_pairs(v: Seq<UsingRow>) -> Seq<(Seq<char>, Seq<char>)> {
    v.map_values(|u: UsingRow| (u.from_path@, u.module_name@))
}

/// Build the tables of a resolution pass from the rows of the index.
pub fn build_resolution_context(
    files: &Vec<FileRow>,
    symbols: Vec<SymbolRow>,
    usings: &Vec<UsingRow>,
    relations: &Vec<TypeRelationRow>,
    namespace_map: NamespaceMap,
) -> (r: ResolutionCtx)
    requires
        namespace_map.wf(),
    ensures
        r.wf(),
        r.symbols() == symbols@,
        forall|p: Seq<char>| #[trigger] r.language(p) == language_in(files@, p),
        r.usings() == using_pairs(usings@),
        r.namespaces() == namespace_map,
        forall|c: Seq<char>| #[trigger]
            r.ancestors_of(c) == (if parents_of(parent_edges(symbols@, relations@), c).len() > 0 {
                Some(ancestors(parent_edges(symbols@, relations@), c))
            } else {
                None
            }),
{
    let mut by_name = KeyIndex::new();
    let mut by_qn = KeyIndex::new();
    let mut i: usize = 0;
    while i < symbols.len()
        invariant
            i <= symbols@.len(),
            by_name.wf(),
            by_qn.wf(),
            by_name@ =~= names_of(symbols@).take(i as int),
            by_qn@ =~= qns_of(symbols@).take(i as int),
        decreases symbols@.len() - i,
    {
        by_name.push(symbols[i].name.as_str(), i);
        by_qn.push(symbols[i].qualified_name.as_str(), i);
        i += 1;
    }
    assert(by_name@ =~= names_of(symbols@));
    assert(by_qn@ =~= qns_of(symbols@));
    let mut path_lang: StringHashMap<String> = StringHashMap::new();
    let mut j: usize = 0;
    while j < files.len()
        invariant
            j <= files@.len(),
            forall|p: Seq<char>| #[trigger]
                path_lang@.contains_key(p) <==> language_in(files@.take(j as int), p) is Some,
            forall|p: Seq<char>| #[trigger]
                path_lang@.contains_key(p) ==> language_in(files@.take(j as int), p) == Some(
                    path_lang@[p]@,
                ),
        decreases files@.len() - j,
    {
        proof {
            assert(files@.take(j + 1).drop_last() =~= files@.take(j as int));
            assert(files@.take(j + 1).last() == files@[j as int]);
        }
        if let Some(l) = &files[j].language {
            path_lang.insert(files[j].path.clone(), l.clone());
        }
        j += 1;
    }
    assert(files@.take(files@.len() as int) =~= files@);
    let mut using_from = KeyIndex::new();
    let mut using_modules: Vec<String> = Vec::new();
    let mut k: usize = 0;
    while k < usings.len()
        invariant
            k <= usings@.len(),
            using_from.wf(),
            using_from@.len() == k,
            using_modules@.len() == k,
            using_from@ =~= usings@.take(k as int).map_values(|u: UsingRow| u.from_path@),
            text::texts(using_modules@) =~= usings@.take(k as int).map_values(
                |u: UsingRow| u.module_name@,
            ),
        decreases usings@.len() - k,
    {
        using_from.push(usings[k].from_path.as_str(), k);
        let ghost before = using_modules@;
        using_modules.push(usings[k].module_name.clone());
        assert(text::texts(using_modules@) =~= text::texts(before).push(
            usings@[k as int].module_name@,
        ));
        assert(usings@.take(k + 1) =~= usings@.take(k as int).push(usings@[k as int]));
        k += 1;
    }
    let closure = build_inheritance_closure(&symbols, &by_qn, relations);
    let r = ResolutionCtx {
        symbols,
        by_name,
        by_qn,
        path_lang,
        using_from,
        using_modules,
        namespaces: namespace_map,
        closure,
    };
    proof {
        assert(usings@.take(usings@.len() as int) =~= usings@);
        assert forall|u: int| 0 <= u < usings@.len() implies r.usings()[u] == using_pairs(
            usings@,
        )[u] by {
            assert(text::texts(r.using_modules@)[u] == r.using_modules@[u]@);
        }
        assert(r.usings() =~= using_pairs(usings@));
    }
    r
}

// ---------------------------------------------------------------------------
// Laws
// ---------------------------------------------------------------------------

proof fn lemma_levels_depth(
    edges: Seq<(Seq<char>, Seq<char>)>,
    level: Seq<Seq<char>>,
    seen: Seq<Seq<char>>,
    left: nat,
)
    ensures
        levels(edges, level, seen, left).len() <= left,
    decreases left,
{
    if level.len() > 0 && left > 0 {
        let next = fresh(seen, offers(edges, level));
        lemma_levels_depth(edges, next, seen + next, (left - 1) as nat);
    }
}

/// No ancestor is further away than the walk goes.
pub proof fn lemma_ancestors_depth(edges: Seq<(Seq<char>, Seq<char>)>, c: Seq<char>)
    ensures
        ancestors(edges, c).len() <= MAX_INHERITANCE_DEPTH,
{
    lemma_levels_depth(edges, seq![c], seq![c], MAX_INHERITANCE_DEPTH as nat);
}

proof fn lemma_fresh(seen: Seq<Seq<char>>, offered: Seq<Seq<char>>)
    ensures
        fresh(seen, offered).no_duplicates(),
        forall|n: Seq<char>| #[trigger]
            fresh(seen, offered).contains(n) ==> !seen.contains(n) && offered.contains(n),
    decreases offered.len(),
{
    if offered.len() > 0 {
        lemma_fresh(seen, offered.drop_last());
        let init = fresh(seen, offered.drop_last());
        let r = fresh(seen, offered);
        assert(offered.contains(offered.last()));
        assert forall|n: Seq<char>| #[trigger] r.contains(n) implies !seen.contains(n)
            && offered.contains(n) by {
            let k = choose|k: int| 0 <= k < r.len() && r[k] == n;
            if k < init.len() {
                assert(init[k] == n);
                assert(init.contains(n));
                assert(offered.drop_last().contains(n));
                let j = choose|j: int| 0 <= j < offered.drop_last().len() && offered.drop_last()[j]
                    == n;
                assert(offered[j] == n);
            }
        }
        assert forall|i: int, j: int| 0 <= i < j < r.len() implies r[i] != r[j] by {
            if j == init.len() {
                assert(init.contains(init[i]));
            }
        }
    }
}

proof fn lemma_levels_new(
    edges: Seq<(Seq<char>, Seq<char>)>,
    level: Seq<Seq<char>>,
    seen: Seq<Seq<char>>,
    left: nat,
    d: int,
)
    requires
        0 <= d < levels(edges, level, seen, left).len(),
    ensures
        levels(edges, level, seen, left)[d].no_duplicates(),
        forall|n: Seq<char>| #[trigger]
            levels(edges, level, seen, left)[d].contains(n) ==> !seen.contains(n),
    decreases left,
{
    let next = fresh(seen, offers(edges, level));
    lemma_fresh(seen, offers(edges, level));
    if d > 0 {
        let more = seen + next;
        let rest = levels(edges, next, more, (left - 1) as nat);
        lemma_levels_new(edges, next, more, (left - 1) as nat, d - 1);
        assert(levels(edges, level, seen, left)[d] == rest[d - 1]);
        assert forall|n: Seq<char>| #[trigger] rest[d - 1].contains(n) implies !seen.contains(
            n,
        ) by {
            if seen.contains(n) {
                let k = choose|k: int| 0 <= k < seen.len() && seen[k] == n;
                assert(more[k] == n);
            }
        }
    }
}

proof fn lemma_levels_disjoint(
    edges: Seq<(Seq<char>, Seq<char>)>,
    level: Seq<Seq<char>>,
    seen: Seq<Seq<char>>,
    left: nat,
    d: int,
    e: int,
    n: Seq<char>,
)
    requires
        0 <= d < e < levels(edges, level, seen, left).len(),
        levels(edges, level, seen, left)[d].contains(n),
    ensures
        !levels(edges, level, seen, left)[e].contains(n),
    decreases left,
{
    let next = fresh(seen, offers(edges, level));
    let more = seen + next;
    let rest = levels(edges, next, more, (left - 1) as nat);
    assert(levels(edges, level, seen, left)[e] == rest[e - 1]);
    if d == 0 {
        lemma_levels_new(edges, next, more, (left - 1) as nat, e - 1);
        let k = choose|k: int| 0 <= k < next.len() && next[k] == n;
        assert(more[seen.len() + k] == n);
        assert(more.contains(n));
    } else {
        assert(levels(edges, level, seen, left)[d] == rest[d - 1]);
        lemma_levels_disjoint(edges, next, more, (left - 1) as nat, d - 1, e - 1, n);
    }
}

/// A class is never its own ancestor, and no ancestor is listed twice, however
/// the declared relations run in circles.
pub proof fn lemma_ancestors_distinct(
    edges: Seq<(Seq<char>, Seq<char>)>,
    c: Seq<char>,
    d: int,
    e: int,
    n: Seq<char>,
)
    requires
        0 <= d <= e < ancestors(edges, c).len(),
        ancestors(edges, c)[d].contains(n),
    ensures
        n != c,
        ancestors(edges, c)[d].no_duplicates(),
        d < e ==> !ancestors(edges, c)[e].contains(n),
{
    let depth = MAX_INHERITANCE_DEPTH as nat;
    lemma_levels_new(edges, seq![c], seq![c], depth, d);
    assert(seq![c][0] == c);
    assert(seq![c].contains(c));
    if d < e {
        lemma_levels_disjoint(edges, seq![c], seq![c], depth, d, e, n);
    }
}

proof fn lemma_parents_are_edges(edges: Seq<(Seq<char>, Seq<char>)>, c: Seq<char>, p: Seq<char>)
    requires
        parents_of(edges, c).contains(p),
    ensures
        edges.contains((c, p)),
    decreases edges.len(),
{
    let init = parents_of(edges.drop_last(), c);
    let all = parents_of(edges, c);
    let k = choose|k: int| 0 <= k < all.len() && all[k] == p;
    if edges.last().0 == c && k == init.len() {
        assert(edges[edges.len() - 1] == (c, p));
    } else {
        assert(init[k] == p);
        lemma_parents_are_edges(edges.drop_last(), c, p);
        let j = choose|j: int| 0 <= j < edges.drop_last().len() && edges.drop_last()[j] == (c, p);
        assert(edges[j] == (c, p));
    }
}

proof fn lemma_offers_have_children(
    edges: Seq<(Seq<char>, Seq<char>)>,
    level: Seq<Seq<char>>,
    p: Seq<char>,
)
    requires
        offers(edges, level).contains(p),
    ensures
        exists|c: Seq<char>| #[trigger] level.contains(c) && edges.contains((c, p)),
    decreases level.len(),
{
    let init = offers(edges, level.drop_last());
    let own = parents_of(edges, level.last());
    let all = offers(edges, level);
    let k = choose|k: int| 0 <= k < all.len() && all[k] == p;
    if k < init.len() {
        assert(init[k] == p);
        lemma_offers_have_children(edges, level.drop_last(), p);
        let c = choose|c: Seq<char>| #[trigger]
            level.drop_last().contains(c) && edges.contains((c, p));
        let j = choose|j: int| 0 <= j < level.drop_last().len() && level.drop_last()[j] == c;
        assert(level[j] == c);
        assert(level.contains(c));
    } else {
        assert(own[k - init.len()] == p);
        lemma_parents_are_edges(edges, level.last(), p);
        assert(level.contains(level.last()));
    }
}

proof fn lemma_levels_linked(
    edges: Seq<(Seq<char>, Seq<char>)>,
    level: Seq<Seq<char>>,
    seen: Seq<Seq<char>>,
    left: nat,
    d: int,
    p: Seq<char>,
)
    requires
        0 <= d < levels(edges, level, seen, left).len(),
        levels(edges, level, seen, left)[d].contains(p),
    ensures
        d == 0 ==> exists|c: Seq<char>| #[trigger] level.contains(c) && edges.contains((c, p)),
        d > 0 ==> exists|c: Seq<char>| #[trigger]
            levels(edges, level, seen, left)[d - 1].contains(c) && edges.contains((c, p)),
    decreases left,
{
    let next = fresh(seen, offers(edges, level));
    let rest = levels(edges, next, seen + next, (left - 1) as nat);
    let all = levels(edges, level, seen, left);
    if d == 0 {
        lemma_fresh(seen, offers(edges, level));
        lemma_offers_have_children(edges, level, p);
        let c = choose|c: Seq<char>| #[trigger] level.contains(c) && edges.contains((c, p));
        assert(level.contains(c) && edges.contains((c, p)));
    } else {
        assert(all[d] == rest[d - 1]);
        lemma_levels_linked(edges, next, seen + next, (left - 1) as nat, d - 1, p);
        let before = if d - 1 == 0 {
            next
        } else {
            rest[d - 2]
        };
        let c = choose|c: Seq<char>| #[trigger] before.contains(c) && edges.contains((c, p));
        assert(all[d - 1] == before);
        assert(all[d - 1].contains(c) && edges.contains((c, p)));
    }
}

/// Every ancestor is a declared parent of a class one step nearer.
pub proof fn lemma_ancestors_linked(
    edges: Seq<(Seq<char>, Seq<char>)>,
    c: Seq<char>,
    d: int,
    p: Seq<char>,
)
    requires
        0 <= d < ancestors(edges, c).len(),
        ancestors(edges, c)[d].contains(p),
    ensures
        d == 0 ==> edges.contains((c, p)),
        d > 0 ==> exists|x: Seq<char>| #[trigger]
            ancestors(edges, c)[d - 1].contains(x) && edges.contains((x, p)),
{
    let depth = MAX_INHERITANCE_DEPTH as nat;
    lemma_levels_linked(edges, seq![c], seq![c], depth, d, p);
    if d == 0 {
        let x = choose|x: Seq<char>| #[trigger] seq![c].contains(x) && edges.contains((x, p));
        assert(x == c);
    }
}

} // verus!
