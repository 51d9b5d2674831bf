//! The targets of type relations that were not found in their own file: looked
//! up by name over the whole project, and taken only where there is one.

use crate::names;
use crate::names::KeyIndex;
use crate::text;
use vstd::prelude::*;

verus! {

/// One symbol, as far as it can be the target of a relation.
pub struct TypeSymbol {
    pub name: String,
    pub qualified_name: String,
    pub language: String,
}

/// One stored relation.
pub struct StoredRelation {
    pub id: i64,
    pub from_symbol: String,
    pub target_text: String,
    pub to_symbol: Option<String>,
}

/// A relation whose target was found, with what its row then holds.
pub struct ResolvedRelation {
    pub id: i64,
    pub to_symbol: String,
    pub confidence: &'static str,
    pub resolution_source: &'static str,
}

/// What a resolved relation says.
pub struct ResolvedView {
    pub id: i64,
    pub to_symbol: Seq<char>,
    pub confidence: Seq<char>,
    pub resolution_source: Seq<char>,
}

impl View for ResolvedRelation {
    type V = ResolvedView;

    open spec fn view(&self) -> ResolvedView {
        ResolvedView {
            id: self.id,
            to_symbol: self.to_symbol@,
            confidence: self.confidence@,
            resolution_source: self.resolution_source@,
        }
    }
}

pub open spec fn resolved_views(v: Seq<ResolvedRelation>) -> Seq<ResolvedView> {
    v.map_values(|x: ResolvedRelation| x@)
}

/// The row of a relation once its only candidate was found.
pub open spec fn found_across_files(id: i64, to_symbol: Seq<char>) -> ResolvedView {
    ResolvedView {
        id,
        to_symbol,
        confidence: "resolved"@,
        resolution_source: "cross_file_unique"@,
    }
}

/// The bare name in a target's text: without type arguments, and without what
/// qualifies it.
pub open spec fn bare_name(target: Seq<char>) -> Seq<char> {
    text::after_last(text::trimmed(text::up_to(target, '<')), "."@)
}

pub fn lookup_name(target_text: &str) -> (r: String)
    ensures
        r@ == bare_name(target_text@),
{
    let cs = text::chars_of(target_text);
    let bare = text::trim(text::before_char(cs.as_slice(), '<'));
    text::string_of(text::after_last_text(bare, "."))
}

pub open spec fn called(q: Seq<char>) -> spec_fn(TypeSymbol) -> bool {
    |s: TypeSymbol| s.qualified_name@ == q
}

/// Picks the symbols with this name in this language.
pub open spec fn candidate(name: Seq<char>, language: Seq<char>) -> spec_fn(TypeSymbol) -> bool {
    |s: TypeSymbol| s.name@ == name && s.language@ == language
}

/// The symbol that a relation's text means: the only one of that name in the
/// language of the class that declares the relation.
pub open spec fn meant(symbols: Seq<TypeSymbol>, r: StoredRelation) -> Option<Seq<char>> {
    let from = symbols.filter(called(r.from_symbol@));
    if from.len() == 0 {
        None
    } else {
        let hits = symbols.filter(candidate(bare_name(r.target_text@), from[0].language@));
        if hits.len() == 1 {
            Some(hits[0].qualified_name@)
        } else {
            None
        }
    }
}

/// The relations among the first `n` that are resolved now. One that already
/// has a target keeps it.
pub open spec fn resolved_now(
    symbols: Seq<TypeSymbol>,
    relations: Seq<StoredRelation>,
    n: nat,
) -> Seq<ResolvedView>
    decreases n,
{
    if n == 0 || n > relations.len() {
        seq![]
    } else {
        let init = resolved_now(symbols, relations, (n - 1) as nat);
        let r = relations[n - 1];
        match meant(symbols, r) {
            Some(q) => if r.to_symbol is None {
                init.push(found_across_files(r.id, q))
            } else {
                init
            },
            None => init,
        }
    }
}

pub open spec fn in_language(language: Seq<char>) -> spec_fn(TypeSymbol) -> bool {
    |s: TypeSymbol| s.language@ == language
}

pub open spec fn named(name: Seq<char>) -> spec_fn(TypeSymbol) -> bool {
    |s: TypeSymbol| s.name@ == name
}

proof fn lemma_filter_in_steps(s: Seq<TypeSymbol>, name: Seq<char>, language: Seq<char>)
    ensures
        s.filter(candidate(name, language)) == s.filter(named(name)).filter(
            in_language(language),
        ),
    decreases s.len(),
{
    reveal(Seq::filter);
    if s.len() > 0 {
        lemma_filter_in_steps(s.drop_last(), name, language);
        let init = s.drop_last().filter(named(name));
        if s.last().name@ == name {
            assert(init.push(s.last()).drop_last() =~= init);
            assert(init.push(s.last()).last() == s.last());
        }
    }
}

struct TypeIndex<'a> {
    symbols: &'a Vec<TypeSymbol>,
    by_name: KeyIndex,
    by_qualified: KeyIndex,
}

impl<'a> TypeIndex<'a> {
    spec fn wf(&self) -> bool {
        &&& self.by_name.wf()
        &&& self.by_name@ == self.symbols@.map_values(|s: TypeSymbol| s.name@)
        &&& self.by_qualified.wf()
        &&& self.by_qualified@ == self.symbols@.map_values(|s: TypeSymbol| s.qualified_name@)
    }

    fn new(symbols: &'a Vec<TypeSymbol>) -> (r: Self)
        ensures
            r.wf(),
            r.symbols@ == symbols@,
    {
        let mut by_name = KeyIndex::new();
        let mut by_qualified = KeyIndex::new();
        let mut i: usize = 0;
        while i < symbols.len()
            invariant
                i <= symbols@.len(),
                by_name.wf(),
                by_name@ =~= symbols@.map_values(|s: TypeSymbol| s.name@).take(i as int),
                by_qualified.wf(),
                by_qualified@ =~= symbols@.map_values(|s: TypeSymbol| s.qualified_name@).take(
                    i as int,
                ),
            decreases symbols@.len() - i,
        {
            by_name.push(symbols[i].name.as_str(), i);
            by_qualified.push(symbols[i].qualified_name.as_str(), i);
            i += 1;
        }
        let r = TypeIndex { symbols, by_name, by_qualified };
        assert(r.by_name@ =~= symbols@.map_values(|s: TypeSymbol| s.name@));
        assert(r.by_qualified@ =~= symbols@.map_values(|s: TypeSymbol| s.qualified_name@));
        r
    }

    /// The only symbol of this name in this language.
    fn only(&self, name: &str, language: &str) -> (r: Option<String>)
        requires
            self.wf(),
        ensures
            ({
                let hits = self.symbols@.filter(candidate(name@, language@));
                match r {
                    Some(q) => hits.len() == 1 && hits[0].qualified_name@ == q@,
                    None => hits.len() != 1,
                }
            }),
    {
        let hits = self.by_name.get(name);
        let ghost own = names::pick(self.symbols@, names::at(hits@));
        let ghost p = in_language(language@);
        proof {
            names::lemma_pick_positions(self.symbols@, self.by_name@, name@, named(name@));
            lemma_filter_in_steps(self.symbols@, name@, language@);
            reveal(Seq::filter);
            assert(own.take(0).filter(p) =~= seq![]);
        }
        let mut count: usize = 0;
        let mut found: usize = 0;
        let mut i: usize = 0;
        while i < hits.len()
            invariant
                i <= hits@.len(),
                self.wf(),
                names::within(hits@, self.by_name@.len()),
                own == names::pick(self.symbols@, names::at(hits@)),
                own.len() == hits@.len(),
                p == in_language(language@),
                count <= i,
                count == own.take(i as int).filter(p).len(),
                count == 1 ==> found < self.symbols@.len() && own.take(i as int).filter(p)[0]
                    == self.symbols@[found as int],
            decreases hits@.len() - i,
        {
            let h = hits[i];
            proof {
                reveal(Seq::filter);
                assert(own[i as int] == self.symbols@[h as int]);
                assert(own.take(i + 1).drop_last() =~= own.take(i as int));
                assert(own.take(i + 1).last() == own[i as int]);
            }
            if text::str_eq(self.symbols[h].language.as_str(), language) {
                if count == 0 {
                    found = h;
                }
                count += 1;
            }
            i += 1;
        }
        assert(own.take(own.len() as int) =~= own);
        if count == 1 {
            Some(self.symbols[found].qualified_name.clone())
        } else {
            None
        }
    }

    fn target(&self, r: &StoredRelation) -> (q: Option<String>)
        requires
            self.wf(),
        ensures
            crate::edges::opt_text(q) == meant(self.symbols@, *r),
    {
        let hits = self.by_qualified.get(r.from_symbol.as_str());
        let ghost own = names::pick(self.symbols@, names::at(hits@));
        proof {
            names::lemma_pick_positions(
                self.symbols@,
                self.by_qualified@,
                r.from_symbol@,
                called(r.from_symbol@),
            );
            assert(own.len() == hits@.len());
        }
        if hits.len() == 0 {
            return None;
        }
        let s = &self.symbols[hits[0]];
        assert(own[0] == *s);
        let name = lookup_name(r.target_text.as_str());
        self.only(name.as_str(), s.language.as_str())
    }
}

/// The relations without a target that can be resolved over the whole project.
pub fn resolve_cross_file_type_relations(
    symbols: &Vec<TypeSymbol>,
    relations: &Vec<StoredRelation>,
) -> (r: Vec<ResolvedRelation>)
    ensures
        resolved_views(r@) == resolved_now(symbols@, relations@, relations@.len()),
{
    let index = TypeIndex::new(symbols);
    let mut out: Vec<ResolvedRelation> = Vec::new();
    let mut i: usize = 0;
    assert(resolved_views(out@) =~= seq![]);
    while i < relations.len()
        invariant
            i <= relations@.len(),
            index.wf(),
            index.symbols@ == symbols@,
            resolved_views(out@) == resolved_now(symbols@, relations@, i as nat),
        decreases relations@.len() - i,
    {
        let r = &relations[i];
        let ghost before = out@;
        if r.to_symbol.is_none() {
            if let Some(to_symbol) = index.target(r) {
                let x = ResolvedRelation {
                    id: r.id,
                    to_symbol,
                    confidence: "resolved",
                    resolution_source: "cross_file_unique",
                };
                out.push(x);
                assert(resolved_views(out@) =~= resolved_views(before).push(x@));
            }
        }
        i += 1;
    }
    out
}

/// A target is never guessed: it is a symbol of that name in the declaring
/// class's language, and every other symbol differs in name or language.
pub proof fn lemma_target_is_the_only_one(symbols: Seq<TypeSymbol>, r: StoredRelation)
    requires
        meant(symbols, r) is Some,
    ensures
        ({
            let from = symbols.filter(called(r.from_symbol@))[0];
            let p = candidate(bare_name(r.target_text@), from.language@);
            exists|i: int|
                #![trigger symbols[i]]
                0 <= i < symbols.len() && p(symbols[i]) && symbols[i].qualified_name@ == meant(
                    symbols,
                    r,
                )->Some_0 && forall|j: int|
                    0 <= j < symbols.len() && p(#[trigger] symbols[j]) ==> j == i
        }),
{
    let from = symbols.filter(called(r.from_symbol@))[0];
    let p = candidate(bare_name(r.target_text@), from.language@);
    let hits = symbols.filter(p);
    assert(hits.contains(hits[0]));
    symbols.lemma_filter_contains_rev(p, hits[0]);
    symbols.lemma_filter_pred(p, 0);
    let i = choose|i: int| 0 <= i < symbols.len() && symbols[i] == hits[0];
    assert forall|j: int| 0 <= j < symbols.len() && p(#[trigger] symbols[j]) implies j == i by {
        if j != i {
            lemma_two_hits(symbols, p, i, j);
        }
    }
    assert(symbols[i].qualified_name@ == meant(symbols, r)->Some_0);
}

proof fn lemma_two_hits(s: Seq<TypeSymbol>, p: spec_fn(TypeSymbol) -> bool, i: int, j: int)
    requires
        0 <= i < s.len(),
        0 <= j < s.len(),
        i != j,
        p(s[i]),
        p(s[j]),
    ensures
        s.filter(p).len() >= 2,
    decreases s.len(),
{
    reveal(Seq::filter);
    let rest = s.drop_last();
    if i < rest.len() && j < rest.len() {
        lemma_two_hits(rest, p, i, j);
    } else {
        let k = if i < j {
            i
        } else {
            j
        };
        assert(rest[k] == s[k]);
        rest.lemma_filter_contains(p, k);
        assert(rest.filter(p).len() >= 1);
    }
}

/// A relation that has a target is left alone.
pub proof fn lemma_resolved_stays(
    symbols: Seq<TypeSymbol>,
    relations: Seq<StoredRelation>,
    n: nat,
    k: int,
)
    requires
        n <= relations.len(),
        0 <= k < resolved_now(symbols, relations, n).len(),
    ensures
        exists|i: int|
            0 <= i < n && (#[trigger] relations[i]).to_symbol is None && relations[i].id
                == resolved_now(symbols, relations, n)[k].id,
    decreases n,
{
    let init = resolved_now(symbols, relations, (n - 1) as nat);
    if k < init.len() {
        lemma_resolved_stays(symbols, relations, (n - 1) as nat, k);
    } else {
        assert(relations[n - 1].to_symbol is None);
    }
}

/// `new_row` is `old_row` once the pass was written back: with the target that
/// was found, where it had none.
pub open spec fn written_back(
    symbols: Seq<TypeSymbol>,
    old_row: StoredRelation,
    new_row: StoredRelation,
) -> bool {
    &&& new_row.id == old_row.id
    &&& new_row.from_symbol@ == old_row.from_symbol@
    &&& new_row.target_text@ == old_row.target_text@
    &&& crate::edges::opt_text(new_row.to_symbol) == (match old_row.to_symbol {
        Some(q) => Some(q@),
        None => meant(symbols, old_row),
    })
}

/// A second pass right after the first changes no row.
pub proof fn lemma_second_pass_changes_nothing(
    symbols: Seq<TypeSymbol>,
    before: Seq<StoredRelation>,
    after: Seq<StoredRelation>,
    n: nat,
)
    requires
        n <= before.len(),
        before.len() == after.len(),
        forall|i: int|
            0 <= i < before.len() ==> written_back(symbols, before[i], #[trigger] after[i]),
    ensures
        resolved_now(symbols, after, n) == Seq::<ResolvedView>::empty(),
    decreases n,
{
    if n > 0 {
        lemma_second_pass_changes_nothing(symbols, before, after, (n - 1) as nat);
        assert(written_back(symbols, before[n - 1], after[n - 1]));
        assert(meant(symbols, after[n - 1]) == meant(symbols, before[n - 1]));
    }
}

} // verus!
