//! From what a parser found in one file to the rows that are stored for it:
//! named symbols, import edges, call sites, type relations and effects.

use crate::edges;
use crate::edges::{ImportEdge, ImportEdgeView, SymbolEffectData, SymbolEffectView};
use crate::edges::{TypeRelationData, TypeRelationView};
use crate::names;
use crate::names::{KeyIndex, NameTable};
use crate::naming;
use crate::naming::{ParsedSymbol, SymbolKind};
use crate::text;
use crate::types;
use crate::types::EdgeConfidence;
use vstd::prelude::*;

verus! {

// ---------------------------------------------------------------------------
// What the parsers hand over
// ---------------------------------------------------------------------------

/// One import statement: the module and the names it binds in the file.
pub struct RawImport {
    pub module_name: String,
    pub imported_names: Vec<String>,
    /// The last segment of the module's path, where it has one.
    pub last_segment: Option<String>,
}

/// One call, with what the resolver tiers say of it.
pub struct RawCall {
    pub callee: String,
    pub receiver: Option<String>,
    /// The receiver names a type in the source text, as in `Type::method()`.
    pub receiver_is_type_path: bool,
    /// The receiver is spelled like a type.
    pub receiver_is_type_like: bool,
    pub enclosing_name: String,
    pub enclosing_line: usize,
    pub enclosing_class: Option<String>,
    pub line: usize,
    pub callee_start_byte: usize,
    pub callee_end_byte: usize,
    pub looks_option_or_result_chained: bool,
    pub module_hint: Option<String>,
    /// The call is qualified with a crate outside of the project, as in
    /// `std::fs::write()`.
    pub rooted_outside: bool,
    pub arg_count: Option<i64>,
    /// What the file's alias table has for the callee.
    pub alias: Option<String>,
    /// The first tier: file symbols, imports and aliases.
    pub tier1: EdgeConfidence,
    pub tier1_path: Option<String>,
    /// The second tier: the class of the receiver.
    pub tier2: Option<String>,
}

/// One `extends` or `implements` clause.
pub struct RawTypeRelation {
    pub class_name: String,
    pub class_line: usize,
    pub relation_kind: &'static str,
    pub target_text: String,
}

/// One explicit throw or field write.
pub struct RawEffect {
    pub enclosing_name: String,
    pub enclosing_line: usize,
    pub effect_kind: &'static str,
    pub target_text: String,
    pub target_confidence: &'static str,
    pub line: usize,
}

/// One reference of a view or procedure to a table or routine.
pub struct SqlReference {
    pub enclosing_qn: String,
    pub target_name: String,
    pub line: i64,
    pub callee_start_byte: usize,
    pub callee_end_byte: usize,
    pub confidence: EdgeConfidence,
    pub edge_kind: &'static str,
}

/// What a full parse of a file gives besides its symbols.
pub struct TreeFacts {
    pub imports: Vec<RawImport>,
    pub calls: Vec<RawCall>,
    pub relations: Vec<RawTypeRelation>,
    pub effects: Vec<RawEffect>,
}

/// A parsed file, by how it was read.
pub enum ParsedFile {
    /// Tables, views and procedures, already named.
    Sql { symbols: Vec<ParsedSymbol>, references: Vec<SqlReference> },
    /// Headings, or definitions found line by line, already named.
    Listed { symbols: Vec<ParsedSymbol> },
    /// A syntax tree.
    Tree { symbols: Vec<ParsedSymbol>, facts: TreeFacts },
}

/// How a file is read.
#[derive(Clone, Copy, Debug, PartialEq, Eq, Structural)]
pub enum ReadAs {
    Sql,
    Markdown,
    Tree,
    Shallow,
}

/// A file is read by its own scanner where the language has one, else by its
/// syntax tree, else line by line.
pub fn read_as(lang: &str, has_tree: bool) -> (r: ReadAs)
    ensures
        r == (if lang@ == "sql"@ {
            ReadAs::Sql
        } else if lang@ == "markdown"@ {
            ReadAs::Markdown
        } else if has_tree {
            ReadAs::Tree
        } else {
            ReadAs::Shallow
        }),
{
    if text::str_eq(lang, "sql") {
        ReadAs::Sql
    } else if text::str_eq(lang, "markdown") {
        ReadAs::Markdown
    } else if has_tree {
        ReadAs::Tree
    } else {
        ReadAs::Shallow
    }
}

// ---------------------------------------------------------------------------
// What is stored
// ---------------------------------------------------------------------------

/// One call site, ready to be stored.
pub struct CallSiteData {
    pub enclosing_qn: String,
    pub callee: String,
    pub line: i64,
    pub callee_start_byte: Option<i64>,
    pub callee_end_byte: Option<i64>,
    /// The span relative to the enclosing symbol, where there is one.
    pub callee_start_rel: Option<i64>,
    pub callee_end_rel: Option<i64>,
    /// 3 where the relative span is known, else 2.
    pub identity_version: i64,
    pub confidence: String,
    pub receiver: Option<String>,
    pub target_class: Option<String>,
    pub looks_option_or_result_chained: bool,
    pub module_hint: Option<String>,
    pub edge_kind: String,
    pub arg_count: Option<i64>,
    pub import_path: Option<String>,
    pub target_type_kind: Option<String>,
    pub target_type_qn: Option<String>,
}

/// What a call site says.
pub struct CallSiteView {
    pub enclosing_qn: Seq<char>,
    pub callee: Seq<char>,
    pub line: int,
    pub callee_start_byte: Option<i64>,
    pub callee_end_byte: Option<i64>,
    pub callee_start_rel: Option<i64>,
    pub callee_end_rel: Option<i64>,
    pub identity_version: int,
    pub confidence: Seq<char>,
    pub receiver: Option<Seq<char>>,
    pub target_class: Option<Seq<char>>,
    pub looks_option_or_result_chained: bool,
    pub module_hint: Option<Seq<char>>,
    pub edge_kind: Seq<char>,
    pub arg_count: Option<i64>,
    pub import_path: Option<Seq<char>>,
    pub target_type_kind: Option<Seq<char>>,
    pub target_type_qn: Option<Seq<char>>,
}

impl View for CallSiteData {
    type V = CallSiteView;

    open spec fn view(&self) -> CallSiteView {
        CallSiteView {
            enclosing_qn: self.enclosing_qn@,
            callee: self.callee@,
            line: self.line as int,
            callee_start_byte: self.callee_start_byte,
            callee_end_byte: self.callee_end_byte,
            callee_start_rel: self.callee_start_rel,
            callee_end_rel: self.callee_end_rel,
            identity_version: self.identity_version as int,
            confidence: self.confidence@,
            receiver: edges::opt_text(self.receiver),
            target_class: edges::opt_text(self.target_class),
            looks_option_or_result_chained: self.looks_option_or_result_chained,
            module_hint: edges::opt_text(self.module_hint),
            edge_kind: self.edge_kind@,
            arg_count: self.arg_count,
            import_path: edges::opt_text(self.import_path),
            target_type_kind: edges::opt_text(self.target_type_kind),
            target_type_qn: edges::opt_text(self.target_type_qn),
        }
    }
}

/// The rows of one file.
pub struct ExtractedFile {
    pub symbols: Vec<ParsedSymbol>,
    pub import_edges: Vec<ImportEdge>,
    pub call_sites: Vec<CallSiteData>,
    pub symbol_count: usize,
    pub type_relations: Vec<TypeRelationData>,
    pub effects: Vec<SymbolEffectData>,
}

pub open spec fn site_views(v: Seq<CallSiteData>) -> Seq<CallSiteView> {
    v.map_values(|s: CallSiteData| s@)
}

pub open spec fn import_views(v: Seq<ImportEdge>) -> Seq<ImportEdgeView> {
    v.map_values(|e: ImportEdge| e@)
}

pub open spec fn relation_views(v: Seq<TypeRelationData>) -> Seq<TypeRelationView> {
    v.map_values(|r: TypeRelationData| r@)
}

pub open spec fn effect_views(v: Seq<SymbolEffectData>) -> Seq<SymbolEffectView> {
    v.map_values(|e: SymbolEffectData| e@)
}

// ---------------------------------------------------------------------------
// Formal resolution
// ---------------------------------------------------------------------------

/// A reference that scope resolution tied to a definition.
pub struct FormalEdge {
    pub reference_symbol: String,
    pub definition_symbol: String,
}

/// How often formal resolution was cancelled.
pub struct FormalTimeouts {
    count: u64,
}

impl FormalTimeouts {
    pub closed spec fn view(&self) -> u64 {
        self.count
    }

    pub fn new() -> (r: Self)
        ensures
            r@ == 0,
    {
        FormalTimeouts { count: 0 }
    }
}

/// The number of cancelled formal resolutions so far.
pub fn formal_resolution_timeout_count(timeouts: &FormalTimeouts) -> (r: u64)
    ensures
        r == timeouts@,
{
    timeouts.count
}

pub open spec fn references(edges: Seq<FormalEdge>) -> Seq<Seq<char>> {
    edges.map_values(|e: FormalEdge| e.reference_symbol@)
}

/// The names that formal resolution found a definition for. A cancelled
/// resolution finds none and is counted, so that it can be told from one that
/// completed without a hit.
pub fn formally_resolved_names(
    timeouts: &mut FormalTimeouts,
    result: Result<Vec<FormalEdge>, String>,
) -> (r: NameTable)
    ensures
        r.wf(),
        match result {
            Ok(edges) => {
                &&& final(timeouts)@ == old(timeouts)@
                &&& r@ == names::first_uses(references(edges@))
            },
            Err(_) => {
                &&& final(timeouts)@ == old(timeouts)@.wrapping_add(1)
                &&& r@.len() == 0
            },
        },
{
    let mut r = NameTable::new();
    match result {
        Ok(edges) => {
            let ghost all = references(edges@);
            let mut i: usize = 0;
            assert(r@ =~= names::first_uses(all.take(0)));
            while i < edges.len()
                invariant
                    i <= edges@.len(),
                    all == references(edges@),
                    r.wf(),
                    r@ == names::first_uses(all.take(i as int)),
                decreases edges@.len() - i,
            {
                let _id: usize = r.intern(edges[i].reference_symbol.as_str());
                assert(all.take(i + 1).drop_last() =~= all.take(i as int));
                assert(all.take(i + 1).last() == edges@[i as int].reference_symbol@);
                i += 1;
            }
            assert(all.take(all.len() as int) =~= all);
        },
        Err(_) => {
            timeouts.count = timeouts.count.wrapping_add(1);
        },
    }
    r
}

// ---------------------------------------------------------------------------
// Import bindings
// ---------------------------------------------------------------------------

/// Every name an import binds, with the import's position, in order.
pub open spec fn bindings(imports: Seq<RawImport>) -> Seq<(Seq<char>, int)>
    decreases imports.len(),
{
    if imports.len() == 0 {
        seq![]
    } else {
        let at = imports.len() - 1;
        bindings(imports.drop_last()) + text::texts(imports.last().imported_names@).map_values(
            |n: Seq<char>| (n, at),
        )
    }
}

pub open spec fn binds(name: Seq<char>) -> spec_fn((Seq<char>, int)) -> bool {
    |b: (Seq<char>, int)| b.0 == name
}

/// The import that binds `name`: the first one in the file.
pub open spec fn binder(imports: Seq<RawImport>, name: Seq<char>) -> Option<RawImport> {
    let hits = bindings(imports).filter(binds(name));
    if hits.len() == 0 {
        None
    } else {
        Some(imports[hits[0].1])
    }
}

proof fn lemma_bindings_within(imports: Seq<RawImport>)
    ensures
        forall|i: int|
            0 <= i < bindings(imports).len() ==> 0 <= (#[trigger] bindings(imports)[i]).1
                < imports.len(),
    decreases imports.len(),
{
    if imports.len() > 0 {
        lemma_bindings_within(imports.drop_last());
        let b = bindings(imports);
        let a = bindings(imports.drop_last());
        assert forall|i: int| 0 <= i < b.len() implies 0 <= (#[trigger] b[i]).1
            < imports.len() by {
            if i < a.len() {
                assert(b[i] == a[i]);
            } else {
                assert(b[i].1 == imports.len() - 1);
            }
        }
    }
}

/// The names of a file's symbols.
pub open spec fn symbol_names(symbols: Seq<ParsedSymbol>) -> Seq<Seq<char>> {
    symbols.map_values(|s: ParsedSymbol| s.name@)
}

/// What a file says of the names used in it.
pub struct FileContext {
    symbols: NameTable,
    keys: KeyIndex,
    owners: Vec<usize>,
}

impl FileContext {
    /// The names of the file's symbols, each once.
    pub closed spec fn names(&self) -> Seq<Seq<char>> {
        self.symbols@
    }

    /// The names its imports bind.
    pub closed spec fn bound(&self) -> Seq<(Seq<char>, int)> {
        Seq::new(self.owners@.len(), |i: int| (self.keys@[i], self.owners@[i] as int))
    }

    pub closed spec fn wf(&self) -> bool {
        self.symbols.wf() && self.keys.wf() && self.keys@.len() == self.owners@.len()
    }

    pub fn new(symbols: &Vec<ParsedSymbol>, imports: &Vec<RawImport>) -> (r: Self)
        ensures
            r.wf(),
            r.names() == names::first_uses(symbol_names(symbols@)),
            r.bound() == bindings(imports@),
    {
        let mut table = NameTable::new();
        let ghost all = symbol_names(symbols@);
        let mut k: usize = 0;
        assert(table@ =~= names::first_uses(all.take(0)));
        while k < symbols.len()
            invariant
                k <= symbols@.len(),
                all == symbol_names(symbols@),
                table.wf(),
                table@ == names::first_uses(all.take(k as int)),
            decreases symbols@.len() - k,
        {
            let _id: usize = table.intern(symbols[k].name.as_str());
            assert(all.take(k + 1).drop_last() =~= all.take(k as int));
            assert(all.take(k + 1).last() == symbols@[k as int].name@);
            k += 1;
        }
        assert(all.take(all.len() as int) =~= all);
        let mut r = FileContext { symbols: table, keys: KeyIndex::new(), owners: Vec::new() };
        let mut i: usize = 0;
        assert(r.bound() =~= bindings(imports@.take(0)));
        while i < imports.len()
            invariant
                i <= imports@.len(),
                r.wf(),
                r.names() == names::first_uses(all),
                r.bound() == bindings(imports@.take(i as int)),
            decreases imports@.len() - i,
        {
            let ghost so_far = r.bound();
            let ghost own = text::texts(imports@[i as int].imported_names@).map_values(
                |n: Seq<char>| (n, i as int),
            );
            let list = &imports[i].imported_names;
            let mut j: usize = 0;
            assert(so_far + own.take(0) =~= so_far);
            while j < list.len()
                invariant
                    j <= list@.len(),
                    i < imports@.len(),
                    list@ == imports@[i as int].imported_names@,
                    own == text::texts(list@).map_values(|n: Seq<char>| (n, i as int)),
                    r.wf(),
                    r.names() == names::first_uses(all),
                    r.bound() == so_far + own.take(j as int),
                decreases list@.len() - j,
            {
                let ghost before = r.bound();
                let n = r.owners.len();
                r.keys.push(list[j].as_str(), n);
                r.owners.push(i);
                proof {
                    assert(r.bound() =~= before.push((list@[j as int]@, i as int)));
                    assert(own[j as int] == (list@[j as int]@, i as int));
                    assert(so_far + own.take(j + 1) =~= (so_far + own.take(j as int)).push(
                        own[j as int],
                    ));
                }
                j += 1;
            }
            proof {
                assert(own.take(own.len() as int) =~= own);
                assert(imports@.take(i + 1).drop_last() =~= imports@.take(i as int));
                assert(bindings(imports@.take(i + 1)) =~= so_far + own);
            }
            i += 1;
        }
        assert(imports@.take(imports@.len() as int) =~= imports@);
        r
    }

    /// Does the file define a symbol of this name?
    pub fn defines(&self, name: &str) -> (r: bool)
        requires
            self.wf(),
        ensures
            r == self.names().contains(name@),
    {
        self.symbols.contains(name)
    }

    /// The position of the import that binds `name`.
    pub fn import_of(&self, name: &str) -> (r: Option<usize>)
        requires
            self.wf(),
        ensures
            match r {
                Some(i) => {
                    let hits = self.bound().filter(binds(name@));
                    hits.len() > 0 && hits[0].1 == i
                },
                None => self.bound().filter(binds(name@)).len() == 0,
            },
    {
        let hits = self.keys.get(name);
        proof {
            names::lemma_pick_positions(self.bound(), self.keys@, name@, binds(name@));
            assert(names::pick(self.bound(), names::at(hits@)).len() == hits@.len());
        }
        if hits.len() == 0 {
            return None;
        }
        let h = hits[0];
        assert(names::pick(self.bound(), names::at(hits@))[0] == self.bound()[h as int]);
        Some(self.owners[h])
    }
}

// ---------------------------------------------------------------------------
// Looking symbols up
// ---------------------------------------------------------------------------

/// The last entry with a property.
pub open spec fn last_where<T>(s: Seq<T>, p: spec_fn(T) -> bool) -> Option<T>
    decreases s.len(),
{
    if s.len() == 0 {
        None
    } else if p(s.last()) {
        Some(s.last())
    } else {
        last_where(s.drop_last(), p)
    }
}

proof fn lemma_last_where_filter<T>(s: Seq<T>, p: spec_fn(T) -> bool, q: spec_fn(T) -> bool)
    requires
        forall|x: T| #[trigger] p(x) ==> q(x),
    ensures
        last_where(s.filter(q), p) == last_where(s, p),
    decreases s.len(),
{
    reveal(Seq::filter);
    if s.len() > 0 {
        lemma_last_where_filter(s.drop_last(), p, q);
        let init = s.drop_last().filter(q);
        if q(s.last()) {
            assert(s.filter(q) == init.push(s.last()));
            assert(init.push(s.last()).drop_last() =~= init);
            assert(init.push(s.last()).last() == s.last());
        }
    }
}

pub open spec fn called(name: Seq<char>) -> spec_fn(ParsedSymbol) -> bool {
    |s: ParsedSymbol| s.name@ == name
}

pub open spec fn placed(name: Seq<char>, line: usize) -> spec_fn(ParsedSymbol) -> bool {
    |s: ParsedSymbol| s.name@ == name && s.line_start == line
}

/// Kinds that can extend, or be extended.
pub open spec fn class_like(k: SymbolKind) -> bool {
    k == SymbolKind::Class || k == SymbolKind::Struct || k == SymbolKind::Trait || k
        == SymbolKind::Interface || k == SymbolKind::Enum
}

pub open spec fn class_called(name: Seq<char>) -> spec_fn(ParsedSymbol) -> bool {
    |s: ParsedSymbol| s.name@ == name && class_like(s.kind)
}

pub open spec fn qualified(q: Seq<char>) -> spec_fn(ParsedSymbol) -> bool {
    |s: ParsedSymbol| s.qualified_name@ == q
}

/// The stored name of the symbol with this name on this line.
pub open spec fn located(symbols: Seq<ParsedSymbol>, name: Seq<char>, line: usize) -> Option<
    Seq<char>,
> {
    match last_where(symbols, placed(name, line)) {
        Some(s) => Some(s.qualified_name@),
        None => None,
    }
}

/// The stored name of the class of this name.
pub open spec fn class_named(symbols: Seq<ParsedSymbol>, name: Seq<char>) -> Option<Seq<char>> {
    match last_where(symbols, class_called(name)) {
        Some(s) => Some(s.qualified_name@),
        None => None,
    }
}

/// Where the symbol stored under `q` starts.
pub open spec fn start_of(symbols: Seq<ParsedSymbol>, q: Seq<char>) -> Option<usize> {
    match last_where(symbols, qualified(q)) {
        Some(s) => Some(s.start_byte),
        None => None,
    }
}

struct SymbolIndex<'a> {
    symbols: &'a Vec<ParsedSymbol>,
    by_name: KeyIndex,
    by_qualified: KeyIndex,
}

impl<'a> SymbolIndex<'a> {
    spec fn wf(&self) -> bool {
        &&& self.by_name.wf()
        &&& self.by_name@ == symbol_names(self.symbols@)
        &&& self.by_qualified.wf()
        &&& self.by_qualified@ == self.symbols@.map_values(|s: ParsedSymbol| s.qualified_name@)
    }

    fn new(symbols: &'a Vec<ParsedSymbol>) -> (r: Self)
        ensures
            r.wf(),
            r.symbols@ == symbols@,
    {
        let mut by_name = KeyIndex::new();
        let mut by_qualified = KeyIndex::new();
        let mut i: usize = 0;
        while i < symbols.len()
            invariant
                i <= symbols@.len(),
                by_name.wf(),
                by_name@ =~= symbol_names(symbols@).take(i as int),
                by_qualified.wf(),
                by_qualified@ =~= symbols@.map_values(
                    |s: ParsedSymbol| s.qualified_name@,
                ).take(i as int),
            decreases symbols@.len() - i,
        {
            by_name.push(symbols[i].name.as_str(), i);
            by_qualified.push(symbols[i].qualified_name.as_str(), i);
            i += 1;
        }
        let r = SymbolIndex { symbols, by_name, by_qualified };
        assert(r.by_name@ =~= symbol_names(symbols@));
        assert(r.by_qualified@ =~= symbols@.map_values(|s: ParsedSymbol| s.qualified_name@));
        r
    }

    fn locate(&self, name: &str, line: usize) -> (r: Option<String>)
        requires
            self.wf(),
        ensures
            edges::opt_text(r) == located(self.symbols@, name@, line),
    {
        let hits = self.by_name.get(name);
        let ghost p = placed(name@, line);
        let ghost own = names::pick(self.symbols@, names::at(hits@));
        proof {
            names::lemma_pick_positions(self.symbols@, self.by_name@, name@, called(name@));
            lemma_last_where_filter(self.symbols@, p, called(name@));
            assert(own.take(own.len() as int) =~= own);
        }
        let mut i: usize = hits.len();
        while i > 0
            invariant
                i <= hits@.len(),
                self.wf(),
                names::within(hits@, self.by_name@.len()),
                own == names::pick(self.symbols@, names::at(hits@)),
                own == self.symbols@.filter(called(name@)),
                p == placed(name@, line),
                last_where(self.symbols@, p) == last_where(own.take(i as int), p),
            decreases i,
        {
            let s = &self.symbols[hits[i - 1]];
            proof {
                assert(own[i - 1] == *s);
                assert(own.take(i as int).drop_last() =~= own.take(i - 1));
                self.symbols@.lemma_filter_pred(called(name@), i - 1);
            }
            if s.line_start == line {
                return Some(s.qualified_name.clone());
            }
            i -= 1;
        }
        None
    }

    fn class(&self, name: &str) -> (r: Option<String>)
        requires
            self.wf(),
        ensures
            edges::opt_text(r) == class_named(self.symbols@, name@),
    {
        let hits = self.by_name.get(name);
        let ghost p = class_called(name@);
        let ghost own = names::pick(self.symbols@, names::at(hits@));
        proof {
            names::lemma_pick_positions(self.symbols@, self.by_name@, name@, called(name@));
            lemma_last_where_filter(self.symbols@, p, called(name@));
            assert(own.take(own.len() as int) =~= own);
        }
        let mut i: usize = hits.len();
        while i > 0
            invariant
                i <= hits@.len(),
                self.wf(),
                names::within(hits@, self.by_name@.len()),
                own == names::pick(self.symbols@, names::at(hits@)),
                own == self.symbols@.filter(called(name@)),
                p == class_called(name@),
                last_where(self.symbols@, p) == last_where(own.take(i as int), p),
            decreases i,
        {
            let s = &self.symbols[hits[i - 1]];
            proof {
                assert(own[i - 1] == *s);
                assert(own.take(i as int).drop_last() =~= own.take(i - 1));
                self.symbols@.lemma_filter_pred(called(name@), i - 1);
            }
            let fits = match s.kind {
                SymbolKind::Class
                | SymbolKind::Struct
                | SymbolKind::Trait
                | SymbolKind::Interface
                | SymbolKind::Enum => true,
                _ => false,
            };
            if fits {
                return Some(s.qualified_name.clone());
            }
            i -= 1;
        }
        None
    }

    fn start(&self, q: &str) -> (r: Option<usize>)
        requires
            self.wf(),
        ensures
            r == start_of(self.symbols@, q@),
    {
        let hits = self.by_qualified.get(q);
        let ghost own = names::pick(self.symbols@, names::at(hits@));
        proof {
            names::lemma_pick_positions(
                self.symbols@,
                self.by_qualified@,
                q@,
                qualified(q@),
            );
            lemma_last_where_filter(self.symbols@, qualified(q@), qualified(q@));
            assert(own.len() == hits@.len());
        }
        if hits.len() == 0 {
            return None;
        }
        let s = &self.symbols[hits[hits.len() - 1]];
        proof {
            assert(own.last() == *s);
            self.symbols@.lemma_filter_pred(qualified(q@), own.len() - 1);
        }
        Some(s.start_byte)
    }
}

// ---------------------------------------------------------------------------
// Import edges
// ---------------------------------------------------------------------------

/// The error type of `serde_json`.
#[verifier::external_type_specification]
#[verifier::external_body]
pub struct ExJsonError(serde_json::Error);

/// The JSON text of a list of names: what `serde_json::to_string` gives for a
/// list of strings.
pub uninterp spec fn json_list(names: Seq<Seq<char>>) -> Seq<char>;

/// Calls `serde_json::to_string` on a list of strings. Trusted: the text is
/// determined by the strings alone, and writing a list of strings to memory
/// does not fail.
#[verifier::external_body]
fn write_json_list(names: &Vec<String>) -> (r: Result<String, serde_json::Error>)
    ensures
        r is Ok,
        r->Ok_0@ == json_list(text::texts(names@)),
{
    serde_json::to_string(names)
}

/// The edge of one import; the indexed file it names is not known yet.
pub open spec fn import_edge(rel: Seq<char>, i: RawImport) -> ImportEdgeView {
    ImportEdgeView {
        from_path: rel,
        to_path: None,
        module_name: i.module_name@,
        symbols_used: json_list(text::texts(i.imported_names@)),
    }
}

pub open spec fn import_edges_of(rel: Seq<char>, imports: Seq<RawImport>) -> Seq<ImportEdgeView> {
    imports.map_values(|i: RawImport| import_edge(rel, i))
}

fn build_import_edges(rel: &str, imports: &Vec<RawImport>) -> (r: Vec<ImportEdge>)
    ensures
        import_views(r@) == import_edges_of(rel@, imports@),
{
    let mut out: Vec<ImportEdge> = Vec::new();
    let ghost want = import_edges_of(rel@, imports@);
    let mut i: usize = 0;
    while i < imports.len()
        invariant
            i <= imports@.len(),
            want == import_edges_of(rel@, imports@),
            import_views(out@) =~= want.take(i as int),
        decreases imports@.len() - i,
    {
        let ghost before = out@;
        let symbols_used = match write_json_list(&imports[i].imported_names) {
            Ok(t) => t,
            Err(_) => "[]".to_owned(),
        };
        let e = ImportEdge {
            from_path: rel.to_owned(),
            to_path: None,
            module_name: imports[i].module_name.clone(),
            symbols_used,
        };
        out.push(e);
        assert(import_views(out@) =~= import_views(before).push(e@));
        assert(want[i as int] == e@);
        i += 1;
    }
    assert(import_views(out@) =~= want);
    out
}

// ---------------------------------------------------------------------------
// Call sites
// ---------------------------------------------------------------------------

/// The enclosing name of a call that stands outside of every symbol.
pub const MODULE_ENCLOSING: &'static str = "<module>";

/// The name of a file's top level, as a caller.
pub open spec fn module_caller(rel: Seq<char>) -> Seq<char> {
    rel + "::"@ + "<module>"@
}

/// Who makes the call: the enclosing symbol, or the file's top level. A call
/// whose enclosing symbol is not known is dropped; so is one that is rooted
/// outside of the project, which can reach nothing in it.
pub open spec fn caller(rel: Seq<char>, symbols: Seq<ParsedSymbol>, c: RawCall) -> Option<
    Seq<char>,
> {
    if c.rooted_outside {
        None
    } else {
        match located(symbols, c.enclosing_name@, c.enclosing_line) {
            Some(q) => Some(q),
            None => if c.enclosing_name@ == "<module>"@ {
                Some(module_caller(rel))
            } else {
                None
            },
        }
    }
}

/// Where the call stands relative to its caller, where that is a symbol that
/// starts before it.
pub open spec fn relative_span(symbols: Seq<ParsedSymbol>, q: Seq<char>, c: RawCall) -> Option<
    (i64, i64),
> {
    match start_of(symbols, q) {
        Some(at) => if c.callee_start_byte >= at {
            Some(((c.callee_start_byte - at) as i64, (c.callee_end_byte - at) as i64))
        } else {
            None
        },
        None => None,
    }
}

/// What the tiers make of a call.
pub struct Judgement {
    pub confidence: EdgeConfidence,
    pub target_class: Option<Seq<char>>,
    pub module_hint: Option<Seq<char>>,
    pub import_path: Option<Seq<char>>,
}

/// The class that a type-path receiver names: `Self` is the enclosing class.
pub open spec fn receiver_class(lang: Seq<char>, receiver: Seq<char>, c: RawCall) -> Seq<char> {
    match c.enclosing_class {
        Some(cls) => if lang == "rust"@ && receiver == "Self"@ {
            cls@
        } else {
            receiver
        },
        None => receiver,
    }
}

/// The hint that a receiver gives which the file imports as a whole module.
pub open spec fn imported_module(imports: Seq<RawImport>, receiver: Seq<char>) -> Option<
    Seq<char>,
> {
    match binder(imports, receiver) {
        Some(i) => edges::opt_text(i.last_segment),
        None => None,
    }
}

/// What is known of a call's target, from the first of these that applies: a
/// type named in the source text, the first tier, the class of the receiver, a
/// C# receiver that is spelled like a type, a receiver that is an imported
/// module.
pub open spec fn judged(lang: Seq<char>, imports: Seq<RawImport>, c: RawCall) -> Judgement {
    let hint = edges::opt_text(c.module_hint);
    let path = edges::opt_text(c.tier1_path);
    let plain = Judgement {
        confidence: c.tier1,
        target_class: None,
        module_hint: hint,
        import_path: path,
    };
    match c.receiver {
        None => plain,
        Some(receiver) => if c.receiver_is_type_path {
            Judgement {
                confidence: EdgeConfidence::Inferred,
                target_class: Some(receiver_class(lang, receiver@, c)),
                module_hint: hint,
                import_path: None,
            }
        } else if c.tier1 != EdgeConfidence::Textual {
            plain
        } else if c.tier2 is Some {
            Judgement {
                confidence: EdgeConfidence::Inferred,
                target_class: edges::opt_text(c.tier2),
                ..plain
            }
        } else if lang == "csharp"@ && c.receiver_is_type_like {
            Judgement {
                confidence: EdgeConfidence::Inferred,
                target_class: Some(receiver@),
                ..plain
            }
        } else if hint is None && imported_module(imports, receiver@) is Some {
            Judgement {
                confidence: EdgeConfidence::Inferred,
                module_hint: imported_module(imports, receiver@),
                ..plain
            }
        } else {
            plain
        },
    }
}

/// How the target class is known, and by what: by the file itself where it is
/// the enclosing class, by the import that binds it, or not at all.
pub open spec fn target_type(
    rel: Seq<char>,
    imports: Seq<RawImport>,
    c: RawCall,
    target_class: Option<Seq<char>>,
) -> (Option<Seq<char>>, Option<Seq<char>>) {
    match target_class {
        None => (None, None),
        Some(cls) => if edges::opt_text(c.enclosing_class) == Some(cls) {
            (Some("resolved_same_file"@), Some(rel))
        } else {
            match binder(imports, cls) {
                Some(i) => (Some("resolved_import"@), Some(i.module_name@)),
                None => (Some("unresolved"@), None),
            }
        },
    }
}

/// The callee, with the file's alias for it resolved.
pub open spec fn real_callee(c: RawCall) -> Seq<char> {
    match c.alias {
        Some(a) => a@,
        None => c.callee@,
    }
}

/// The call site of one call by `q`.
pub open spec fn site_by(
    rel: Seq<char>,
    lang: Seq<char>,
    symbols: Seq<ParsedSymbol>,
    imports: Seq<RawImport>,
    formal: Seq<Seq<char>>,
    c: RawCall,
    q: Seq<char>,
) -> CallSiteView {
    let j = judged(lang, imports, c);
    let span = relative_span(symbols, q, c);
    let kind = target_type(rel, imports, c, j.target_class);
    CallSiteView {
        enclosing_qn: q,
        callee: real_callee(c),
        line: c.line as int,
        callee_start_byte: Some(c.callee_start_byte as i64),
        callee_end_byte: Some(c.callee_end_byte as i64),
        callee_start_rel: match span {
            Some(s) => Some(s.0),
            None => None,
        },
        callee_end_rel: match span {
            Some(s) => Some(s.1),
            None => None,
        },
        identity_version: if span is Some {
            3
        } else {
            2
        },
        confidence: types::spelling(
            if j.confidence != EdgeConfidence::Resolved && formal.contains(real_callee(c)) {
                EdgeConfidence::Formal
            } else {
                j.confidence
            },
        ),
        receiver: edges::opt_text(c.receiver),
        target_class: j.target_class,
        looks_option_or_result_chained: c.looks_option_or_result_chained,
        module_hint: j.module_hint,
        edge_kind: "call"@,
        arg_count: c.arg_count,
        import_path: j.import_path,
        target_type_kind: kind.0,
        target_type_qn: kind.1,
    }
}

/// The call sites of the first `n` calls, in order.
pub open spec fn sites_of(
    rel: Seq<char>,
    lang: Seq<char>,
    symbols: Seq<ParsedSymbol>,
    imports: Seq<RawImport>,
    formal: Seq<Seq<char>>,
    calls: Seq<RawCall>,
    n: nat,
) -> Seq<CallSiteView>
    decreases n,
{
    if n == 0 || n > calls.len() {
        seq![]
    } else {
        let init = sites_of(rel, lang, symbols, imports, formal, calls, (n - 1) as nat);
        let c = calls[n - 1];
        match caller(rel, symbols, c) {
            Some(q) => init.push(site_by(rel, lang, symbols, imports, formal, c, q)),
            None => init,
        }
    }
}

/// A call's span is a span, and its numbers can be stored.
pub open spec fn call_fits(c: RawCall) -> bool {
    c.callee_start_byte <= c.callee_end_byte <= i64::MAX && c.line <= i64::MAX
}

/// The numbers of a file's facts can be stored.
pub open spec fn facts_fit(f: TreeFacts) -> bool {
    &&& forall|i: int| 0 <= i < f.calls@.len() ==> call_fits(#[trigger] f.calls@[i])
    &&& forall|i: int|
        0 <= i < f.relations@.len() ==> (#[trigger] f.relations@[i]).class_line <= i64::MAX
    &&& forall|i: int| 0 <= i < f.effects@.len() ==> (#[trigger] f.effects@[i]).line <= i64::MAX
}

fn copy_text(s: &Option<String>) -> (r: Option<String>)
    ensures
        edges::opt_text(r) == edges::opt_text(*s),
{
    match s {
        Some(x) => Some(x.clone()),
        None => None,
    }
}

struct Judged {
    confidence: EdgeConfidence,
    target_class: Option<String>,
    module_hint: Option<String>,
    import_path: Option<String>,
}

impl Judged {
    spec fn view(&self) -> Judgement {
        Judgement {
            confidence: self.confidence,
            target_class: edges::opt_text(self.target_class),
            module_hint: edges::opt_text(self.module_hint),
            import_path: edges::opt_text(self.import_path),
        }
    }
}

/// One file's symbols and imports, as its call sites are attributed to them.
struct FileView<'a> {
    rel: &'a str,
    lang: &'a str,
    index: SymbolIndex<'a>,
    context: &'a FileContext,
    imports: &'a Vec<RawImport>,
}

impl<'a> FileView<'a> {
    spec fn wf(&self) -> bool {
        &&& self.index.wf()
        &&& self.context.wf()
        &&& self.context.bound() == bindings(self.imports@)
    }

    fn import_of(&self, name: &str) -> (r: Option<usize>)
        requires
            self.wf(),
        ensures
            match r {
                Some(i) => i < self.imports@.len() && binder(self.imports@, name@) == Some(
                    self.imports@[i as int],
                ),
                None => binder(self.imports@, name@) is None,
            },
    {
        let r = self.context.import_of(name);
        proof {
            if r is Some {
                let b = bindings(self.imports@);
                lemma_bindings_within(self.imports@);
                let hits = b.filter(binds(name@));
                assert(hits.contains(hits[0]));
                b.lemma_filter_contains_rev(binds(name@), hits[0]);
            }
        }
        r
    }

    fn judge(&self, c: &RawCall) -> (r: Judged)
        requires
            self.wf(),
        ensures
            r@ == judged(self.lang@, self.imports@, *c),
    {
        let hint = copy_text(&c.module_hint);
        let path = copy_text(&c.tier1_path);
        let receiver = match &c.receiver {
            None => {
                return Judged {
                    confidence: c.tier1,
                    target_class: None,
                    module_hint: hint,
                    import_path: path,
                };
            },
            Some(x) => x,
        };
        if c.receiver_is_type_path {
            let own = text::str_eq(self.lang, "rust") && text::str_eq(receiver.as_str(), "Self");
            let cls: String = match &c.enclosing_class {
                Some(cls) => if own {
                    cls.clone()
                } else {
                    receiver.clone()
                },
                None => receiver.clone(),
            };
            return Judged {
                confidence: EdgeConfidence::Inferred,
                target_class: Some(cls),
                module_hint: hint,
                import_path: None,
            };
        }
        if c.tier1 == EdgeConfidence::Textual {
            if c.tier2.is_some() {
                return Judged {
                    confidence: EdgeConfidence::Inferred,
                    target_class: copy_text(&c.tier2),
                    module_hint: hint,
                    import_path: path,
                };
            }
            if text::str_eq(self.lang, "csharp") && c.receiver_is_type_like {
                return Judged {
                    confidence: EdgeConfidence::Inferred,
                    target_class: Some(receiver.clone()),
                    module_hint: hint,
                    import_path: path,
                };
            }
            if hint.is_none() {
                if let Some(i) = self.import_of(receiver.as_str()) {
                    if self.imports[i].last_segment.is_some() {
                        return Judged {
                            confidence: EdgeConfidence::Inferred,
                            target_class: None,
                            module_hint: copy_text(&self.imports[i].last_segment),
                            import_path: path,
                        };
                    }
                }
            }
        }
        Judged { confidence: c.tier1, target_class: None, module_hint: hint, import_path: path }
    }

    fn type_of_target(&self, c: &RawCall, target_class: &Option<String>) -> (r: (
        Option<String>,
        Option<String>,
    ))
        requires
            self.wf(),
        ensures
            (edges::opt_text(r.0), edges::opt_text(r.1)) == target_type(
                self.rel@,
                self.imports@,
                *c,
                edges::opt_text(*target_class),
            ),
    {
        let cls = match target_class {
            None => {
                return (None, None);
            },
            Some(cls) => cls,
        };
        let own = match &c.enclosing_class {
            Some(e) => text::str_eq(e.as_str(), cls.as_str()),
            None => false,
        };
        if own {
            return (Some("resolved_same_file".to_owned()), Some(self.rel.to_owned()));
        }
        match self.import_of(cls.as_str()) {
            Some(i) => (
                Some("resolved_import".to_owned()),
                Some(self.imports[i].module_name.clone()),
            ),
            None => (Some("unresolved".to_owned()), None),
        }
    }

    fn caller_of(&self, c: &RawCall) -> (r: Option<String>)
        requires
            self.wf(),
        ensures
            edges::opt_text(r) == caller(self.rel@, self.index.symbols@, *c),
    {
        if c.rooted_outside {
            return None;
        }
        let found = self.index.locate(c.enclosing_name.as_str(), c.enclosing_line);
        if found.is_some() {
            return found;
        }
        if text::str_eq(c.enclosing_name.as_str(), MODULE_ENCLOSING) {
            let mut out: String = self.rel.to_owned();
            text::push_text(&mut out, "::");
            text::push_text(&mut out, MODULE_ENCLOSING);
            return Some(out);
        }
        None
    }

    fn site(&self, c: &RawCall, q: String, formal: &NameTable) -> (r: CallSiteData)
        requires
            self.wf(),
            call_fits(*c),
            formal.wf(),
        ensures
            r@ == site_by(
                self.rel@,
                self.lang@,
                self.index.symbols@,
                self.imports@,
                formal@,
                *c,
                q@,
            ),
    {
        let (callee_start_rel, callee_end_rel, identity_version): (
            Option<i64>,
            Option<i64>,
            i64,
        ) = match self.index.start(q.as_str()) {
            Some(at) => if c.callee_start_byte >= at {
                (
                    Some((c.callee_start_byte - at) as i64),
                    Some((c.callee_end_byte - at) as i64),
                    3,
                )
            } else {
                (None, None, 2)
            },
            None => (None, None, 2),
        };
        let j = self.judge(c);
        let (target_type_kind, target_type_qn) = self.type_of_target(c, &j.target_class);
        let callee: String = match &c.alias {
            Some(a) => a.clone(),
            None => c.callee.clone(),
        };
        let confidence = if j.confidence != EdgeConfidence::Resolved && formal.contains(
            callee.as_str(),
        ) {
            EdgeConfidence::Formal
        } else {
            j.confidence
        };
        CallSiteData {
            enclosing_qn: q,
            callee,
            line: c.line as i64,
            callee_start_byte: Some(c.callee_start_byte as i64),
            callee_end_byte: Some(c.callee_end_byte as i64),
            callee_start_rel,
            callee_end_rel,
            identity_version,
            confidence: confidence.as_str().to_owned(),
            receiver: copy_text(&c.receiver),
            target_class: j.target_class,
            looks_option_or_result_chained: c.looks_option_or_result_chained,
            module_hint: j.module_hint,
            edge_kind: "call".to_owned(),
            arg_count: c.arg_count,
            import_path: j.import_path,
            target_type_kind,
            target_type_qn,
        }
    }

    fn sites(&self, calls: &Vec<RawCall>, formal: &NameTable) -> (r: Vec<CallSiteData>)
        requires
            self.wf(),
            formal.wf(),
            forall|i: int| 0 <= i < calls@.len() ==> call_fits(#[trigger] calls@[i]),
        ensures
            site_views(r@) == sites_of(
                self.rel@,
                self.lang@,
                self.index.symbols@,
                self.imports@,
                formal@,
                calls@,
                calls@.len(),
            ),
    {
        let mut out: Vec<CallSiteData> = Vec::new();
        let mut i: usize = 0;
        assert(site_views(out@) =~= seq![]);
        while i < calls.len()
            invariant
                i <= calls@.len(),
                self.wf(),
                formal.wf(),
                forall|i: int| 0 <= i < calls@.len() ==> call_fits(#[trigger] calls@[i]),
                site_views(out@) == sites_of(
                    self.rel@,
                    self.lang@,
                    self.index.symbols@,
                    self.imports@,
                    formal@,
                    calls@,
                    i as nat,
                ),
            decreases calls@.len() - i,
        {
            let ghost before = out@;
            if let Some(q) = self.caller_of(&calls[i]) {
                let s = self.site(&calls[i], q, formal);
                out.push(s);
                assert(site_views(out@) =~= site_views(before).push(s@));
            }
            i += 1;
        }
        out
    }
}

// ---------------------------------------------------------------------------
// Type relations and effects
// ---------------------------------------------------------------------------

/// The class that declares a relation: the symbol on the line, or else the
/// class of that name in the file.
pub open spec fn declarer(symbols: Seq<ParsedSymbol>, t: RawTypeRelation) -> Option<Seq<char>> {
    match located(symbols, t.class_name@, t.class_line) {
        Some(q) => Some(q),
        None => class_named(symbols, t.class_name@),
    }
}

/// A relation of the class `q`; its target is known where the file declares it.
pub open spec fn relation_by(
    rel: Seq<char>,
    symbols: Seq<ParsedSymbol>,
    t: RawTypeRelation,
    q: Seq<char>,
) -> TypeRelationView {
    let target = class_named(symbols, t.target_text@);
    TypeRelationView {
        from_symbol: q,
        relation_kind: t.relation_kind@,
        target_text: t.target_text@,
        to_symbol: target,
        confidence: if target is Some {
            "resolved"@
        } else {
            "textual"@
        },
        resolution_source: if target is Some {
            Some("same_file_ast"@)
        } else {
            None
        },
        source_path: rel,
        line: t.class_line as int,
    }
}

/// The relations of the first `n` clauses; one without a declarer is dropped.
pub open spec fn relations_of(
    rel: Seq<char>,
    symbols: Seq<ParsedSymbol>,
    raw: Seq<RawTypeRelation>,
    n: nat,
) -> Seq<TypeRelationView>
    decreases n,
{
    if n == 0 || n > raw.len() {
        seq![]
    } else {
        let init = relations_of(rel, symbols, raw, (n - 1) as nat);
        match declarer(symbols, raw[n - 1]) {
            Some(q) => init.push(relation_by(rel, symbols, raw[n - 1], q)),
            None => init,
        }
    }
}

/// The effects of the first `n` facts; one outside of every symbol is dropped.
pub open spec fn effects_of(
    rel: Seq<char>,
    symbols: Seq<ParsedSymbol>,
    raw: Seq<RawEffect>,
    n: nat,
) -> Seq<SymbolEffectView>
    decreases n,
{
    if n == 0 || n > raw.len() {
        seq![]
    } else {
        let init = effects_of(rel, symbols, raw, (n - 1) as nat);
        let e = raw[n - 1];
        match located(symbols, e.enclosing_name@, e.enclosing_line) {
            Some(q) => init.push(
                SymbolEffectView {
                    symbol_qn: q,
                    effect_kind: e.effect_kind@,
                    target_text: e.target_text@,
                    target_confidence: e.target_confidence@,
                    source_path: rel,
                    line: e.line as int,
                },
            ),
            None => init,
        }
    }
}

impl<'a> SymbolIndex<'a> {
    fn relations(&self, rel: &str, raw: &Vec<RawTypeRelation>) -> (r: Vec<TypeRelationData>)
        requires
            self.wf(),
            forall|i: int| 0 <= i < raw@.len() ==> (#[trigger] raw@[i]).class_line <= i64::MAX,
        ensures
            relation_views(r@) == relations_of(rel@, self.symbols@, raw@, raw@.len()),
    {
        let mut out: Vec<TypeRelationData> = Vec::new();
        let mut i: usize = 0;
        assert(relation_views(out@) =~= seq![]);
        while i < raw.len()
            invariant
                i <= raw@.len(),
                self.wf(),
                forall|i: int| 0 <= i < raw@.len() ==> (#[trigger] raw@[i]).class_line <= i64::MAX,
                relation_views(out@) == relations_of(rel@, self.symbols@, raw@, i as nat),
            decreases raw@.len() - i,
        {
            let t = &raw[i];
            let ghost before = out@;
            let found = match self.locate(t.class_name.as_str(), t.class_line) {
                Some(q) => Some(q),
                None => self.class(t.class_name.as_str()),
            };
            if let Some(from_symbol) = found {
                let to_symbol = self.class(t.target_text.as_str());
                let known = to_symbol.is_some();
                let d = TypeRelationData {
                    from_symbol,
                    relation_kind: t.relation_kind,
                    target_text: t.target_text.clone(),
                    to_symbol,
                    confidence: if known {
                        "resolved"
                    } else {
                        "textual"
                    },
                    resolution_source: if known {
                        Some("same_file_ast")
                    } else {
                        None
                    },
                    source_path: rel.to_owned(),
                    line: t.class_line as i64,
                };
                out.push(d);
                assert(relation_views(out@) =~= relation_views(before).push(d@));
            }
            i += 1;
        }
        out
    }

    fn effects(&self, rel: &str, raw: &Vec<RawEffect>) -> (r: Vec<SymbolEffectData>)
        requires
            self.wf(),
            forall|i: int| 0 <= i < raw@.len() ==> (#[trigger] raw@[i]).line <= i64::MAX,
        ensures
            effect_views(r@) == effects_of(rel@, self.symbols@, raw@, raw@.len()),
    {
        let mut out: Vec<SymbolEffectData> = Vec::new();
        let mut i: usize = 0;
        assert(effect_views(out@) =~= seq![]);
        while i < raw.len()
            invariant
                i <= raw@.len(),
                self.wf(),
                forall|i: int| 0 <= i < raw@.len() ==> (#[trigger] raw@[i]).line <= i64::MAX,
                effect_views(out@) == effects_of(rel@, self.symbols@, raw@, i as nat),
            decreases raw@.len() - i,
        {
            let e = &raw[i];
            let ghost before = out@;
            if let Some(symbol_qn) = self.locate(e.enclosing_name.as_str(), e.enclosing_line) {
                let d = SymbolEffectData {
                    symbol_qn,
                    effect_kind: e.effect_kind,
                    target_text: e.target_text.clone(),
                    target_confidence: e.target_confidence,
                    source_path: rel.to_owned(),
                    line: e.line as i64,
                };
                out.push(d);
                assert(effect_views(out@) =~= effect_views(before).push(d@));
            }
            i += 1;
        }
        out
    }
}

// ---------------------------------------------------------------------------
// One file
// ---------------------------------------------------------------------------

/// The call site of one SQL reference.
pub open spec fn sql_site(r: SqlReference) -> CallSiteView {
    CallSiteView {
        enclosing_qn: r.enclosing_qn@,
        callee: r.target_name@,
        line: r.line as int,
        callee_start_byte: Some(r.callee_start_byte as i64),
        callee_end_byte: Some(r.callee_end_byte as i64),
        callee_start_rel: None,
        callee_end_rel: None,
        identity_version: 2,
        confidence: types::spelling(r.confidence),
        receiver: None,
        target_class: None,
        looks_option_or_result_chained: false,
        module_hint: None,
        edge_kind: r.edge_kind@,
        arg_count: None,
        import_path: None,
        target_type_kind: None,
        target_type_qn: None,
    }
}

pub open spec fn sql_sites(references: Seq<SqlReference>) -> Seq<CallSiteView> {
    references.map_values(|r: SqlReference| sql_site(r))
}

pub open spec fn references_fit(references: Seq<SqlReference>) -> bool {
    forall|i: int|
        0 <= i < references.len() ==> (#[trigger] references[i]).callee_start_byte <= i64::MAX
            && references[i].callee_end_byte <= i64::MAX
}

fn build_sql_sites(references: &Vec<SqlReference>) -> (r: Vec<CallSiteData>)
    requires
        references_fit(references@),
    ensures
        site_views(r@) == sql_sites(references@),
{
    let mut out: Vec<CallSiteData> = Vec::new();
    let ghost want = sql_sites(references@);
    let mut i: usize = 0;
    while i < references.len()
        invariant
            i <= references@.len(),
            references_fit(references@),
            want == sql_sites(references@),
            site_views(out@) =~= want.take(i as int),
        decreases references@.len() - i,
    {
        let ghost before = out@;
        let r = &references[i];
        let s = CallSiteData {
            enclosing_qn: r.enclosing_qn.clone(),
            callee: r.target_name.clone(),
            line: r.line,
            callee_start_byte: Some(r.callee_start_byte as i64),
            callee_end_byte: Some(r.callee_end_byte as i64),
            callee_start_rel: None,
            callee_end_rel: None,
            identity_version: 2,
            confidence: r.confidence.as_str().to_owned(),
            receiver: None,
            target_class: None,
            looks_option_or_result_chained: false,
            module_hint: None,
            edge_kind: r.edge_kind.to_owned(),
            arg_count: None,
            import_path: None,
            target_type_kind: None,
            target_type_qn: None,
        };
        out.push(s);
        assert(site_views(out@) =~= site_views(before).push(s@));
        assert(want[i as int] == s@);
        i += 1;
    }
    assert(site_views(out@) =~= want);
    out
}

/// The numbers of a parsed file can be stored.
pub open spec fn parsed_fits(p: ParsedFile) -> bool {
    match p {
        ParsedFile::Sql { references, .. } => references_fit(references@),
        ParsedFile::Listed { .. } => true,
        ParsedFile::Tree { facts, .. } => facts_fit(facts),
    }
}

/// The rows of a file that was only listed.
pub open spec fn only_symbols(f: ExtractedFile, symbols: Seq<ParsedSymbol>) -> bool {
    &&& f.symbols@ == symbols
    &&& f.import_edges@.len() == 0
    &&& f.type_relations@.len() == 0
    &&& f.effects@.len() == 0
}

/// The rows of a file with a syntax tree.
pub open spec fn tree_rows(
    f: ExtractedFile,
    rel: Seq<char>,
    lang: Seq<char>,
    raw: Seq<ParsedSymbol>,
    facts: TreeFacts,
    patterns: Seq<Seq<char>>,
    formal: Seq<Seq<char>>,
) -> bool {
    &&& f.symbols@.len() == raw.len()
    &&& forall|i: int|
        0 <= i < raw.len() ==> naming::stored_as(
            raw[i],
            #[trigger] f.symbols@[i],
            rel,
            naming::assigned(rel, raw, raw.len())[i],
            patterns,
        )
    &&& import_views(f.import_edges@) == import_edges_of(rel, facts.imports@)
    &&& site_views(f.call_sites@) == sites_of(
        rel,
        lang,
        f.symbols@,
        facts.imports@,
        formal,
        facts.calls@,
        facts.calls@.len(),
    )
    &&& relation_views(f.type_relations@) == relations_of(
        rel,
        f.symbols@,
        facts.relations@,
        facts.relations@.len(),
    )
    &&& effect_views(f.effects@) == effects_of(
        rel,
        f.symbols@,
        facts.effects@,
        facts.effects@.len(),
    )
}

/// The rows of one file.
pub fn extract_file_data(
    rel: &str,
    lang: &str,
    parsed: ParsedFile,
    entry_point_patterns: &Vec<String>,
    formally_resolved: &NameTable,
) -> (r: ExtractedFile)
    requires
        parsed_fits(parsed),
        formally_resolved.wf(),
    ensures
        r.symbol_count == r.symbols@.len(),
        match parsed {
            ParsedFile::Sql { symbols, references } => {
                &&& only_symbols(r, symbols@)
                &&& site_views(r.call_sites@) == sql_sites(references@)
            },
            ParsedFile::Listed { symbols } => {
                &&& only_symbols(r, symbols@)
                &&& r.call_sites@.len() == 0
            },
            ParsedFile::Tree { symbols, facts } => tree_rows(
                r,
                rel@,
                lang@,
                symbols@,
                facts,
                text::texts(entry_point_patterns@),
                formally_resolved@,
            ),
        },
{
    match parsed {
        ParsedFile::Sql { symbols, references } => {
            let call_sites = build_sql_sites(&references);
            let symbol_count = symbols.len();
            ExtractedFile {
                symbols,
                import_edges: Vec::new(),
                call_sites,
                symbol_count,
                type_relations: Vec::new(),
                effects: Vec::new(),
            }
        },
        ParsedFile::Listed { symbols } => {
            let symbol_count = symbols.len();
            ExtractedFile {
                symbols,
                import_edges: Vec::new(),
                call_sites: Vec::new(),
                symbol_count,
                type_relations: Vec::new(),
                effects: Vec::new(),
            }
        },
        ParsedFile::Tree { symbols, facts } => {
            let context = FileContext::new(&symbols, &facts.imports);
            let named = naming::name_symbols(rel, symbols, entry_point_patterns);
            let import_edges = build_import_edges(rel, &facts.imports);
            let view = FileView {
                rel,
                lang,
                index: SymbolIndex::new(&named),
                context: &context,
                imports: &facts.imports,
            };
            let call_sites = view.sites(&facts.calls, formally_resolved);
            let type_relations = view.index.relations(rel, &facts.relations);
            let effects = view.index.effects(rel, &facts.effects);
            let symbol_count = named.len();
            ExtractedFile {
                symbols: named,
                import_edges,
                call_sites,
                symbol_count,
                type_relations,
                effects,
            }
        },
    }
}

/// A call that is rooted outside of the project leaves no call site, so that no
/// symbol of the project is ever taken for its target.
pub proof fn lemma_outside_call_leaves_no_site(
    rel: Seq<char>,
    lang: Seq<char>,
    symbols: Seq<ParsedSymbol>,
    imports: Seq<RawImport>,
    formal: Seq<Seq<char>>,
    calls: Seq<RawCall>,
    n: nat,
)
    requires
        0 < n <= calls.len(),
        calls[n - 1].rooted_outside,
    ensures
        sites_of(rel, lang, symbols, imports, formal, calls, n) == sites_of(
            rel,
            lang,
            symbols,
            imports,
            formal,
            calls,
            (n - 1) as nat,
        ),
{
}

/// A call keeps its relative span wherever its enclosing symbol moves in the
/// file.
pub proof fn lemma_relative_span_moves(
    symbols: Seq<ParsedSymbol>,
    moved: Seq<ParsedSymbol>,
    q: Seq<char>,
    c: RawCall,
    d: RawCall,
    by: int,
)
    requires
        start_of(symbols, q) is Some,
        start_of(moved, q) is Some,
        start_of(moved, q)->Some_0 == start_of(symbols, q)->Some_0 + by,
        d.callee_start_byte == c.callee_start_byte + by,
        d.callee_end_byte == c.callee_end_byte + by,
    ensures
        relative_span(moved, q, d) == relative_span(symbols, q, c),
{
}

} // verus!
