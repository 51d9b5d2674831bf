//! A factual summary of each symbol: what it calls, what it extends, what it
//! writes and throws, and whether it takes part in a call cycle.

use crate::cycles;
use crate::digraph;
use crate::digraph::{Arc, Digraph, EdgeRow};
use crate::names;
use crate::names::{KeyIndex, NameTable};
use crate::text;
use crate::types;
use crate::types::EdgeConfidence;
use vstd::prelude::*;

verus! {

pub const MAX_CALLEES_SHOWN: usize = 8;

pub const MAX_POSSIBLE_CALLEES_SHOWN: usize = 5;

pub const MAX_EFFECTS_SHOWN: usize = 8;

pub const MAX_ROLE_TAGS: usize = 2;

// ---------------------------------------------------------------------------
// Call cycles
// ---------------------------------------------------------------------------

/// Is the target of a stored edge known? Only such an edge makes a cycle.
pub open spec fn known_call(r: EdgeRow) -> bool {
    !r.ruled_out_by_scip && (types::parsed(r.edge_confidence@) matches Some(c) && types::rank_of(c)
        >= types::rank_of(EdgeConfidence::Resolved))
}

/// The known calls.
pub open spec fn calls(rows: Seq<EdgeRow>) -> Seq<Arc>
    decreases rows.len(),
{
    if rows.len() == 0 {
        seq![]
    } else {
        let init = calls(rows.drop_last());
        if known_call(rows.last()) {
            init.push((rows.last().from_symbol@, rows.last().to_symbol@))
        } else {
            init
        }
    }
}

pub open spec fn called_by(arcs: Seq<Arc>) -> spec_fn(Seq<char>, Seq<char>) -> bool {
    |a: Seq<char>, b: Seq<char>| arcs.contains((a, b))
}

/// `a` can reach itself through known calls.
pub open spec fn is_recursive(rows: Seq<EdgeRow>, a: Seq<char>) -> bool {
    cycles::on_cycle(called_by(calls(rows)), a)
}

fn is_known_call(r: &EdgeRow) -> (b: bool)
    ensures
        b == known_call(*r),
{
    if r.ruled_out_by_scip {
        return false;
    }
    match EdgeConfidence::parse(r.edge_confidence.as_str()) {
        Some(c) => c.rank() >= EdgeConfidence::Resolved.rank(),
        None => false,
    }
}

spec fn walk_names(nodes: Seq<Seq<char>>, p: Seq<int>) -> Seq<Seq<char>> {
    p.map_values(|i: int| nodes[i])
}

/// A node lies on a cycle exactly when its name does.
proof fn lemma_cycle_of_name(nodes: Seq<Seq<char>>, adj: Seq<Vec<usize>>, arcs: Seq<Arc>, u: int)
    requires
        digraph::depicts(nodes, adj, arcs),
        digraph::all_distinct(nodes),
        0 <= u < nodes.len(),
    ensures
        cycles::on_cycle(cycles::edges_in(adj), u) <==> cycles::on_cycle(
            called_by(arcs),
            nodes[u],
        ),
{
    let rel = cycles::edges_in(adj);
    let named = called_by(arcs);
    if cycles::on_cycle(rel, u) {
        let p = choose|p: Seq<int>| p.len() >= 2 && cycles::leads(rel, p, u, u);
        let q = walk_names(nodes, p);
        assert forall|i: int| 0 <= i < q.len() - 1 implies named(#[trigger] q[i], q[i + 1]) by {
            assert(rel(p[i], p[i + 1]));
            assert(cycles::edge(adj, p[i], p[i + 1]));
            let j = choose|j: int|
                0 <= j < adj[p[i]]@.len() && #[trigger] adj[p[i]]@[j] == p[i + 1];
            assert(adj[p[i]]@[j] < adj.len());
        }
        assert(cycles::leads(named, q, nodes[u], nodes[u]));
    }
    if cycles::on_cycle(named, nodes[u]) {
        let q = choose|q: Seq<Seq<char>>|
            q.len() >= 2 && cycles::leads(named, q, nodes[u], nodes[u]);
        let p = Seq::new(q.len(), |i: int| nodes.index_of(q[i]));
        assert forall|i: int| 0 <= i < q.len() implies 0 <= #[trigger] p[i] < nodes.len()
            && nodes[p[i]] == q[i] by {
            if i < q.len() - 1 {
                assert(named(q[i], q[i + 1]));
                let k = choose|k: int| 0 <= k < arcs.len() && arcs[k] == (q[i], q[i + 1]);
                assert(nodes.contains(arcs[k].0));
            } else {
                assert(q[i] == nodes[u]);
                assert(nodes.contains(q[i]));
            }
            assert(nodes.contains(q[i]));
        }
        assert forall|i: int| 0 <= i < p.len() - 1 implies rel(#[trigger] p[i], p[i + 1]) by {
            assert(named(q[i], q[i + 1]));
            assert(nodes[p[i]] == q[i]);
            assert(nodes[p[i + 1]] == q[i + 1]);
            assert(cycles::edge(adj, p[i], p[i + 1]));
        }
        assert(p[0] == u) by {
            let a = p[0];
            assert(nodes[a] == nodes[u]);
            if a < u {
                assert(nodes[a] != nodes[u]);
            } else if u < a {
                assert(nodes[u] != nodes[a]);
            }
        }
        let last = p.len() - 1;
        assert(p[last] == u) by {
            let a = p[last];
            assert(nodes[a] == q[last]);
            if a < u {
                assert(nodes[a] != nodes[u]);
            } else if u < a {
                assert(nodes[u] != nodes[a]);
            }
        }
        assert(cycles::leads(rel, p, u, u));
    }
}

/// The symbols that take part in a call cycle.
pub fn compute_recursive_symbols(rows: &Vec<EdgeRow>) -> (r: NameTable)
    ensures
        r.wf(),
        forall|a: Seq<char>| #[trigger] r@.contains(a) <==> is_recursive(rows@, a),
{
    let mut g = Digraph::new();
    let mut i: usize = 0;
    while i < rows.len()
        invariant
            i <= rows@.len(),
            g.wf(calls(rows@.take(i as int))),
        decreases rows@.len() - i,
    {
        let r = &rows[i];
        let ghost arcs = calls(rows@.take(i as int));
        proof {
            assert(rows@.take(i + 1).drop_last() =~= rows@.take(i as int));
            assert(rows@.take(i + 1).last() == *r);
        }
        if is_known_call(r) {
            g.add_arc(r.from_symbol.as_str(), r.to_symbol.as_str(), Ghost(arcs));
        }
        i += 1;
    }
    assert(rows@.take(rows@.len() as int) =~= rows@);
    let ghost arcs = calls(rows@);
    let ghost nodes = g.nodes@;
    let back = digraph::reverse(&g.adj);
    let marks = cycles::cyclic_nodes(&g.adj, &back);
    proof {
        assert forall|x: int, y: int| 0 <= x < y < nodes.len() implies #[trigger] nodes[x]
            != #[trigger] nodes[y] by {
            if nodes[x] == nodes[y] {
                g.nodes.lemma_distinct(x, y);
            }
        }
        assert forall|u: int| 0 <= u < nodes.len() implies #[trigger] marks@[u] == is_recursive(
            rows@,
            nodes[u],
        ) by {
            lemma_cycle_of_name(nodes, g.adj@, arcs, u);
        }
    }
    let mut out = NameTable::new();
    let mut k: usize = 0;
    while k < marks.len()
        invariant
            k <= marks@.len(),
            g.nodes.wf(),
            nodes == g.nodes@,
            marks@.len() == nodes.len(),
            out.wf(),
            forall|u: int|
                0 <= u < nodes.len() ==> #[trigger] marks@[u] == is_recursive(rows@, nodes[u]),
            forall|a: Seq<char>| #[trigger]
                out@.contains(a) <==> exists|u: int|
                    0 <= u < k && #[trigger] marks@[u] && nodes[u] == a,
        decreases marks@.len() - k,
    {
        let ghost before = out@;
        if marks[k] {
            out.intern(g.nodes.name(k).as_str());
        }
        proof {
            assert forall|a: Seq<char>| #[trigger] out@.contains(a) <==> exists|u: int|
                0 <= u < k + 1 && #[trigger] marks@[u] && nodes[u] == a by {
                let was = before.contains(a);
                assert(was <==> exists|u: int|
                    0 <= u < k && #[trigger] marks@[u] && nodes[u] == a);
                if out@.contains(a) && !was {
                    assert(marks@[k as int] && nodes[k as int] == a) by {
                        let j = choose|j: int| 0 <= j < out@.len() && out@[j] == a;
                        if j < before.len() {
                            assert(before[j] == a);
                        }
                    }
                }
                if was {
                    let j = choose|j: int| 0 <= j < before.len() && before[j] == a;
                    assert(out@[j] == a);
                }
                if exists|u: int| 0 <= u < k + 1 && #[trigger] marks@[u] && nodes[u] == a {
                    let u = choose|u: int| 0 <= u < k + 1 && #[trigger] marks@[u] && nodes[u] == a;
                    if u == k {
                        assert(out@.contains(nodes[k as int]));
                    }
                }
            }
        }
        k += 1;
    }
    proof {
        assert forall|a: Seq<char>| #[trigger] out@.contains(a) <==> is_recursive(rows@, a) by {
            if is_recursive(rows@, a) {
                let q = choose|q: Seq<Seq<char>>|
                    q.len() >= 2 && cycles::leads(called_by(arcs), q, a, a);
                assert(called_by(arcs)(q[0], q[1]));
                let j = choose|j: int| 0 <= j < arcs.len() && arcs[j] == (q[0], q[1]);
                assert(nodes.contains(arcs[j].0));
                let u = choose|u: int| 0 <= u < nodes.len() && nodes[u] == a;
                assert(marks@[u]);
            }
        }
    }
    out
}

// ---------------------------------------------------------------------------
// Facts
// ---------------------------------------------------------------------------

/// One callee, with the first words of its name.
#[derive(Clone)]
pub struct CalleeFact {
    pub name: String,
    pub role_tags: Vec<String>,
}

#[derive(Clone)]
pub struct TypeRelationFact {
    pub relation_kind: String,
    pub target_text: String,
}

#[derive(Clone)]
pub struct EffectFact {
    pub effect_kind: String,
    pub target_text: String,
}

/// Everything a digest is rendered from.
#[derive(Clone)]
pub struct DigestFacts {
    pub name: String,
    pub kind: String,
    pub signature: String,
    pub complexity: i64,
    pub confirmed_callees: Vec<CalleeFact>,
    pub possible_callees: Vec<CalleeFact>,
    pub type_relations: Vec<TypeRelationFact>,
    pub effects: Vec<EffectFact>,
    pub recursive_component: bool,
    /// More callees or effects exist than are held.
    pub truncated: bool,
}

pub struct CalleeView {
    pub name: Seq<char>,
    pub role_tags: Seq<Seq<char>>,
}

/// A kind of fact and the text it is about.
pub type Labelled = (Seq<char>, Seq<char>);

pub struct DigestView {
    pub name: Seq<char>,
    pub kind: Seq<char>,
    pub signature: Seq<char>,
    pub complexity: int,
    pub confirmed_callees: Seq<CalleeView>,
    pub possible_callees: Seq<CalleeView>,
    pub type_relations: Seq<Labelled>,
    pub effects: Seq<Labelled>,
    pub recursive_component: bool,
    pub truncated: bool,
}

impl View for CalleeFact {
    type V = CalleeView;

    open spec fn view(&self) -> CalleeView {
        CalleeView { name: self.name@, role_tags: text::texts(self.role_tags@) }
    }
}

impl View for TypeRelationFact {
    type V = Labelled;

    open spec fn view(&self) -> Labelled {
        (self.relation_kind@, self.target_text@)
    }
}

impl View for EffectFact {
    type V = Labelled;

    open spec fn view(&self) -> Labelled {
        (self.effect_kind@, self.target_text@)
    }
}

pub open spec fn callee_views(v: Seq<CalleeFact>) -> Seq<CalleeView> {
    v.map_values(|c: CalleeFact| c@)
}

pub open spec fn relation_views(v: Seq<TypeRelationFact>) -> Seq<Labelled> {
    v.map_values(|r: TypeRelationFact| r@)
}

pub open spec fn effect_views(v: Seq<EffectFact>) -> Seq<Labelled> {
    v.map_values(|e: EffectFact| e@)
}

impl View for DigestFacts {
    type V = DigestView;

    open spec fn view(&self) -> DigestView {
        DigestView {
            name: self.name@,
            kind: self.kind@,
            signature: self.signature@,
            complexity: self.complexity as int,
            confirmed_callees: callee_views(self.confirmed_callees@),
            possible_callees: callee_views(self.possible_callees@),
            type_relations: relation_views(self.type_relations@),
            effects: effect_views(self.effects@),
            recursive_component: self.recursive_component,
            truncated: self.truncated,
        }
    }
}

// ---------------------------------------------------------------------------
// Rendering
// ---------------------------------------------------------------------------

/// A callee as it reads in a digest: its name, and its tags in brackets.
pub open spec fn callee_text(c: CalleeView) -> Seq<char> {
    if c.role_tags.len() == 0 {
        c.name
    } else {
        c.name + " ["@ + text::joined(c.role_tags, " "@) + "]"@
    }
}

pub open spec fn callee_texts(v: Seq<CalleeView>) -> Seq<Seq<char>> {
    v.map_values(|c: CalleeView| callee_text(c))
}

/// The texts of the facts of one kind.
pub open spec fn of_kind(v: Seq<Labelled>, kind: Seq<char>) -> Seq<Seq<char>>
    decreases v.len(),
{
    if v.len() == 0 {
        seq![]
    } else if v.last().0 == kind {
        of_kind(v.drop_last(), kind).push(v.last().1)
    } else {
        of_kind(v.drop_last(), kind)
    }
}

/// A sentence that lists `items`; nothing where there are none.
pub open spec fn sentence(label: Seq<char>, items: Seq<Seq<char>>) -> Seq<Seq<char>> {
    if items.len() == 0 {
        seq![]
    } else {
        seq![label + text::joined(items, ", "@) + "."@]
    }
}

/// The sentences of a digest, in order.
pub open spec fn sentences(f: DigestView) -> Seq<Seq<char>> {
    seq![f.kind + " "@ + f.name + "."@] + (if f.signature.len() == 0 {
        seq![]
    } else {
        seq!["Signature: "@ + f.signature]
    }) + sentence("Calls: "@, callee_texts(f.confirmed_callees)) + sentence(
        "Possibly calls: "@,
        callee_texts(f.possible_callees),
    ) + sentence("Extends: "@, of_kind(f.type_relations, "extends"@)) + sentence(
        "Implements: "@,
        of_kind(f.type_relations, "implements"@),
    ) + sentence("Writes: "@, of_kind(f.effects, "write_field"@)) + sentence(
        "Throws: "@,
        of_kind(f.effects, "explicit_throw"@),
    ) + (if f.complexity > 1 {
        seq!["Complexity: "@ + text::decimal(f.complexity as nat) + "."@]
    } else {
        seq![]
    }) + (if f.recursive_component {
        seq!["Participates in a call cycle."@]
    } else {
        seq![]
    })
}

/// The text of a digest.
pub open spec fn rendering(f: DigestView) -> Seq<char> {
    text::joined(sentences(f), " "@)
}

fn format_callee(c: &CalleeFact) -> (r: String)
    ensures
        r@ == callee_text(c@),
{
    if c.role_tags.len() == 0 {
        return c.name.clone();
    }
    let tags = text::join_strings(c.role_tags.as_slice(), " ");
    let mut out: String = c.name.clone();
    text::push_text(&mut out, " [");
    text::push_text(&mut out, tags.as_str());
    text::push_text(&mut out, "]");
    out
}

fn format_callees(v: &Vec<CalleeFact>) -> (r: Vec<String>)
    ensures
        text::texts(r@) == callee_texts(callee_views(v@)),
{
    let mut out: Vec<String> = Vec::new();
    let mut i: usize = 0;
    while i < v.len()
        invariant
            i <= v@.len(),
            text::texts(out@) =~= callee_texts(callee_views(v@)).take(i as int),
        decreases v@.len() - i,
    {
        let ghost before = out@;
        let t = format_callee(&v[i]);
        out.push(t);
        assert(text::texts(out@) =~= text::texts(before).push(t@));
        i += 1;
    }
    out
}

fn relations_of_kind(v: &Vec<TypeRelationFact>, kind: &str) -> (r: Vec<String>)
    ensures
        text::texts(r@) == of_kind(relation_views(v@), kind@),
{
    let mut out: Vec<String> = Vec::new();
    let mut i: usize = 0;
    while i < v.len()
        invariant
            i <= v@.len(),
            text::texts(out@) == of_kind(relation_views(v@).take(i as int), kind@),
        decreases v@.len() - i,
    {
        let ghost before = out@;
        proof {
            let all = relation_views(v@);
            assert(all.take(i + 1).drop_last() =~= all.take(i as int));
            assert(all.take(i + 1).last() == v@[i as int]@);
        }
        if text::str_eq(v[i].relation_kind.as_str(), kind) {
            out.push(v[i].target_text.clone());
            assert(text::texts(out@) =~= text::texts(before).push(v@[i as int].target_text@));
        }
        i += 1;
    }
    assert(relation_views(v@).take(v@.len() as int) =~= relation_views(v@));
    out
}

fn effects_of_kind(v: &Vec<EffectFact>, kind: &str) -> (r: Vec<String>)
    ensures
        text::texts(r@) == of_kind(effect_views(v@), kind@),
{
    let mut out: Vec<String> = Vec::new();
    let mut i: usize = 0;
    while i < v.len()
        invariant
            i <= v@.len(),
            text::texts(out@) == of_kind(effect_views(v@).take(i as int), kind@),
        decreases v@.len() - i,
    {
        let ghost before = out@;
        proof {
            let all = effect_views(v@);
            assert(all.take(i + 1).drop_last() =~= all.take(i as int));
            assert(all.take(i + 1).last() == v@[i as int]@);
        }
        if text::str_eq(v[i].effect_kind.as_str(), kind) {
            out.push(v[i].target_text.clone());
            assert(text::texts(out@) =~= text::texts(before).push(v@[i as int].target_text@));
        }
        i += 1;
    }
    assert(effect_views(v@).take(v@.len() as int) =~= effect_views(v@));
    out
}

/// Append a sentence that lists `items`, if there are any.
fn push_sentence(out: &mut Vec<String>, label: &str, items: &Vec<String>)
    ensures
        text::texts(final(out)@) == text::texts(old(out)@) + sentence(
            label@,
            text::texts(items@),
        ),
{
    assert(text::texts(items@).len() == items@.len());
    if items.len() > 0 {
        let list = text::join_strings(items.as_slice(), ", ");
        let mut s: String = label.to_owned();
        text::push_text(&mut s, list.as_str());
        text::push_text(&mut s, ".");
        out.push(s);
        assert(text::texts(out@) =~= text::texts(old(out)@).push(s@));
    }
    assert(text::texts(out@) =~= text::texts(old(out)@) + sentence(
        label@,
        text::texts(items@),
    ));
}

/// The text of a digest: every sentence restates one fact.
pub fn render_digest(facts: &DigestFacts) -> (r: String)
    ensures
        r@ == rendering(facts@),
{
    let ghost f = facts@;
    let mut parts: Vec<String> = Vec::new();
    let mut head: String = facts.kind.clone();
    text::push_text(&mut head, " ");
    text::push_text(&mut head, facts.name.as_str());
    text::push_text(&mut head, ".");
    parts.push(head);
    assert(text::texts(parts@) =~= seq![f.kind + " "@ + f.name + "."@]);
    if !facts.signature.as_str().is_empty() {
        let mut s: String = "Signature: ".to_owned();
        text::push_text(&mut s, facts.signature.as_str());
        let ghost before = parts@;
        parts.push(s);
        assert(text::texts(parts@) =~= text::texts(before).push(s@));
    }
    let ghost p1 = text::texts(parts@);
    assert(p1 =~= seq![f.kind + " "@ + f.name + "."@] + (if f.signature.len() == 0 {
        seq![]
    } else {
        seq!["Signature: "@ + f.signature]
    }));
    push_sentence(&mut parts, "Calls: ", &format_callees(&facts.confirmed_callees));
    push_sentence(&mut parts, "Possibly calls: ", &format_callees(&facts.possible_callees));
    push_sentence(&mut parts, "Extends: ", &relations_of_kind(&facts.type_relations, "extends"));
    push_sentence(
        &mut parts,
        "Implements: ",
        &relations_of_kind(&facts.type_relations, "implements"),
    );
    push_sentence(&mut parts, "Writes: ", &effects_of_kind(&facts.effects, "write_field"));
    push_sentence(&mut parts, "Throws: ", &effects_of_kind(&facts.effects, "explicit_throw"));
    let ghost p2 = text::texts(parts@);
    if facts.complexity > 1 {
        let mut s: String = "Complexity: ".to_owned();
        text::push_decimal(&mut s, facts.complexity as u64);
        text::push_text(&mut s, ".");
        let ghost before = parts@;
        parts.push(s);
        assert(text::texts(parts@) =~= text::texts(before).push(s@));
    }
    let ghost p3 = text::texts(parts@);
    assert(p3 =~= p2 + (if f.complexity > 1 {
        seq!["Complexity: "@ + text::decimal(f.complexity as nat) + "."@]
    } else {
        seq![]
    }));
    if facts.recursive_component {
        let ghost before = parts@;
        parts.push("Participates in a call cycle.".to_owned());
        assert(text::texts(parts@) =~= text::texts(before).push(
            "Participates in a call cycle."@,
        ));
    }
    assert(text::texts(parts@) =~= sentences(f));
    text::join_strings(parts.as_slice(), " ")
}

// ---------------------------------------------------------------------------
// Gathering
// ---------------------------------------------------------------------------

/// One symbol of the index, as far as its digest reads it.
pub struct DigestSymbol {
    pub qualified_name: String,
    pub name: String,
    pub kind: String,
    pub signature: Option<String>,
    pub complexity: Option<i64>,
    /// The words of the symbol's name.
    pub name_tokens: Option<String>,
}

/// One stored type relation.
pub struct RelationRow {
    pub from_symbol: String,
    pub relation_kind: String,
    pub target_text: String,
}

/// One stored effect; the rows come in the order of their lines.
pub struct EffectRow {
    pub symbol_qn: String,
    pub effect_kind: String,
    pub target_text: String,
}

/// The digest of one symbol.
pub struct SymbolDigest {
    pub symbol_qn: String,
    pub facts: DigestFacts,
    pub rendered_text: String,
}

/// Kinds of symbols that have something to summarize.
pub open spec fn digestable(kind: Seq<char>) -> bool {
    kind == "function"@ || kind == "method"@ || kind == "class"@ || kind == "struct"@ || kind
        == "trait"@ || kind == "interface"@ || kind == "constructor"@
}

pub open spec fn symbol_is(q: Seq<char>) -> spec_fn(DigestSymbol) -> bool {
    |s: DigestSymbol| s.qualified_name@ == q
}

pub open spec fn call_from(q: Seq<char>) -> spec_fn(EdgeRow) -> bool {
    |e: EdgeRow| e.from_symbol@ == q
}

pub open spec fn relation_from(q: Seq<char>) -> spec_fn(RelationRow) -> bool {
    |r: RelationRow| r.from_symbol@ == q
}

pub open spec fn effect_from(q: Seq<char>) -> spec_fn(EffectRow) -> bool {
    |e: EffectRow| e.symbol_qn@ == q
}

/// An optional text, empty where there is none.
pub open spec fn or_empty(s: Option<String>) -> Seq<char> {
    match s {
        Some(x) => x@,
        None => seq![],
    }
}

/// At most the first `n` entries.
pub open spec fn first_of<T>(s: Seq<T>, n: nat) -> Seq<T> {
    if s.len() <= n {
        s
    } else {
        s.take(n as int)
    }
}

/// The first words of a callee's own name.
pub open spec fn tags_of(symbols: Seq<DigestSymbol>, q: Seq<char>) -> Seq<Seq<char>> {
    let hits = symbols.filter(symbol_is(q));
    if hits.len() == 0 {
        seq![]
    } else {
        first_of(text::words_of(or_empty(hits.last().name_tokens)), MAX_ROLE_TAGS as nat)
    }
}

/// Does an edge show a callee: a known one, or one that is only inferred?
pub open spec fn shows(known: bool, e: EdgeRow) -> bool {
    !e.ruled_out_by_scip && match types::parsed(e.edge_confidence@) {
        Some(c) => if known {
            types::rank_of(c) >= types::rank_of(EdgeConfidence::Resolved)
        } else {
            c == EdgeConfidence::Inferred
        },
        None => false,
    }
}

/// The targets of the edges that show a callee.
pub open spec fn shown_targets(rows: Seq<EdgeRow>, known: bool) -> Seq<Seq<char>>
    decreases rows.len(),
{
    if rows.len() == 0 {
        seq![]
    } else if shows(known, rows.last()) {
        shown_targets(rows.drop_last(), known).push(rows.last().to_symbol@)
    } else {
        shown_targets(rows.drop_last(), known)
    }
}

/// The callees of `q`, each once, by name.
pub open spec fn callees_of(rows: Seq<EdgeRow>, q: Seq<char>, known: bool) -> Seq<Seq<char>> {
    text::ordered(shown_targets(rows.filter(call_from(q)), known))
}

pub open spec fn with_tags(symbols: Seq<DigestSymbol>, v: Seq<Seq<char>>) -> Seq<CalleeView> {
    v.map_values(|n: Seq<char>| (CalleeView { name: n, role_tags: tags_of(symbols, n) }))
}

pub open spec fn relations_of(rows: Seq<RelationRow>, q: Seq<char>) -> Seq<Labelled> {
    rows.filter(relation_from(q)).map_values(
        |r: RelationRow| (r.relation_kind@, r.target_text@),
    )
}

pub open spec fn effects_of(rows: Seq<EffectRow>, q: Seq<char>) -> Seq<Labelled> {
    rows.filter(effect_from(q)).map_values(|e: EffectRow| (e.effect_kind@, e.target_text@))
}

/// The facts about one symbol.
pub open spec fn facts_of(
    symbols: Seq<DigestSymbol>,
    calls: Seq<EdgeRow>,
    relations: Seq<RelationRow>,
    effects: Seq<EffectRow>,
    s: DigestSymbol,
) -> DigestView {
    let q = s.qualified_name@;
    let known = callees_of(calls, q, true);
    let possible = callees_of(calls, q, false);
    let did = effects_of(effects, q);
    DigestView {
        name: s.name@,
        kind: s.kind@,
        signature: or_empty(s.signature),
        complexity: match s.complexity {
            Some(c) => c as int,
            None => 1,
        },
        confirmed_callees: with_tags(symbols, first_of(known, MAX_CALLEES_SHOWN as nat)),
        possible_callees: with_tags(
            symbols,
            first_of(possible, MAX_POSSIBLE_CALLEES_SHOWN as nat),
        ),
        type_relations: relations_of(relations, q),
        effects: first_of(did, MAX_EFFECTS_SHOWN as nat),
        recursive_component: is_recursive(calls, q),
        truncated: known.len() > MAX_CALLEES_SHOWN || possible.len() > MAX_POSSIBLE_CALLEES_SHOWN
            || did.len() > MAX_EFFECTS_SHOWN,
    }
}

/// The tables that digests are gathered from.
struct Sources<'a> {
    symbols: &'a Vec<DigestSymbol>,
    calls: &'a Vec<EdgeRow>,
    relations: &'a Vec<RelationRow>,
    effects: &'a Vec<EffectRow>,
    symbol_keys: KeyIndex,
    call_keys: KeyIndex,
    relation_keys: KeyIndex,
    effect_keys: KeyIndex,
    recursive: NameTable,
}

impl<'a> Sources<'a> {
    spec fn wf(&self) -> bool {
        &&& self.symbol_keys.wf()
        &&& self.symbol_keys@ == self.symbols@.map_values(|s: DigestSymbol| s.qualified_name@)
        &&& self.call_keys.wf()
        &&& self.call_keys@ == self.calls@.map_values(|e: EdgeRow| e.from_symbol@)
        &&& self.relation_keys.wf()
        &&& self.relation_keys@ == self.relations@.map_values(|r: RelationRow| r.from_symbol@)
        &&& self.effect_keys.wf()
        &&& self.effect_keys@ == self.effects@.map_values(|e: EffectRow| e.symbol_qn@)
        &&& self.recursive.wf()
        &&& forall|a: Seq<char>| #[trigger]
            self.recursive@.contains(a) <==> is_recursive(self.calls@, a)
    }

    fn role_tags_for(&self, q: &str) -> (r: Vec<String>)
        requires
            self.wf(),
        ensures
            text::texts(r@) == tags_of(self.symbols@, q@),
    {
        let hits = self.symbol_keys.get(q);
        proof {
            names::lemma_pick_positions(self.symbols@, self.symbol_keys@, q@, symbol_is(q@));
            assert(names::pick(self.symbols@, names::at(hits@)).len() == hits@.len());
        }
        let mut out: Vec<String> = Vec::new();
        if hits.len() == 0 {
            assert(text::texts(out@) =~= seq![]);
            return out;
        }
        let h = hits[hits.len() - 1];
        assert(names::pick(self.symbols@, names::at(hits@)).last() == self.symbols@[h as int]);
        let tokens: String = match &self.symbols[h].name_tokens {
            Some(t) => t.clone(),
            None => String::new(),
        };
        assert(tokens@ =~= or_empty(self.symbols@[h as int].name_tokens));
        let cs = text::chars_of(tokens.as_str());
        let ws = text::words(cs.as_slice());
        let ghost all = text::words_of(tokens@);
        assert(text::slices(ws@).len() == ws@.len());
        let mut i: usize = 0;
        while i < ws.len() && i < MAX_ROLE_TAGS
            invariant
                i <= ws@.len(),
                i <= MAX_ROLE_TAGS,
                text::slices(ws@) == all,
                text::texts(out@) =~= all.take(i as int),
            decreases ws@.len() - i,
        {
            let ghost before = out@;
            let w = text::string_of(ws[i]);
            out.push(w);
            assert(text::slices(ws@)[i as int] == ws@[i as int]@);
            assert(text::texts(out@) =~= text::texts(before).push(w@));
            i += 1;
        }
        assert(text::texts(out@) =~= first_of(all, MAX_ROLE_TAGS as nat));
        out
    }

    fn callees(&self, q: &str, known: bool) -> (r: Vec<String>)
        requires
            self.wf(),
        ensures
            text::texts(r@) == callees_of(self.calls@, q@, known),
    {
        let hits = self.call_keys.get(q);
        proof {
            names::lemma_pick_positions(self.calls@, self.call_keys@, q@, call_from(q@));
        }
        let ghost own = names::pick(self.calls@, names::at(hits@));
        assert(own.len() == hits@.len());
        let mut out: Vec<String> = Vec::new();
        let mut i: usize = 0;
        assert(text::texts(out@) =~= shown_targets(own.take(0), known));
        while i < hits.len()
            invariant
                i <= hits@.len(),
                self.wf(),
                own == names::pick(self.calls@, names::at(hits@)),
                own.len() == hits@.len(),
                names::within(hits@, self.call_keys@.len()),
                text::texts(out@) == shown_targets(own.take(i as int), known),
            decreases hits@.len() - i,
        {
            let e = &self.calls[hits[i]];
            proof {
                assert(own[i as int] == *e);
                assert(own.take(i + 1).drop_last() =~= own.take(i as int));
            }
            let ghost before = out@;
            let shown = !e.ruled_out_by_scip && match EdgeConfidence::parse(
                e.edge_confidence.as_str(),
            ) {
                Some(c) => if known {
                    c.rank() >= EdgeConfidence::Resolved.rank()
                } else {
                    c == EdgeConfidence::Inferred
                },
                None => false,
            };
            if shown {
                out.push(e.to_symbol.clone());
                assert(text::texts(out@) =~= text::texts(before).push(e.to_symbol@));
            }
            i += 1;
        }
        assert(own.take(own.len() as int) =~= own);
        text::sort_distinct(&out)
    }

    fn tagged(&self, v: &Vec<String>, limit: usize) -> (r: Vec<CalleeFact>)
        requires
            self.wf(),
        ensures
            callee_views(r@) == with_tags(
                self.symbols@,
                first_of(text::texts(v@), limit as nat),
            ),
    {
        let ghost all = with_tags(self.symbols@, text::texts(v@));
        let mut out: Vec<CalleeFact> = Vec::new();
        let mut i: usize = 0;
        while i < v.len() && i < limit
            invariant
                i <= v@.len(),
                i <= limit,
                self.wf(),
                all == with_tags(self.symbols@, text::texts(v@)),
                callee_views(out@) =~= all.take(i as int),
            decreases v@.len() - i,
        {
            let ghost before = out@;
            let tags = self.role_tags_for(v[i].as_str());
            let c = CalleeFact { name: v[i].clone(), role_tags: tags };
            out.push(c);
            assert(callee_views(out@) =~= callee_views(before).push(c@));
            assert(all[i as int] == c@);
            i += 1;
        }
        assert(callee_views(out@) =~= with_tags(
            self.symbols@,
            first_of(text::texts(v@), limit as nat),
        ));
        out
    }

    fn relations_from(&self, q: &str) -> (r: Vec<TypeRelationFact>)
        requires
            self.wf(),
        ensures
            relation_views(r@) == relations_of(self.relations@, q@),
    {
        let hits = self.relation_keys.get(q);
        proof {
            names::lemma_pick_positions(
                self.relations@,
                self.relation_keys@,
                q@,
                relation_from(q@),
            );
        }
        let ghost want = relations_of(self.relations@, q@);
        let mut out: Vec<TypeRelationFact> = Vec::new();
        let mut i: usize = 0;
        while i < hits.len()
            invariant
                i <= hits@.len(),
                self.wf(),
                names::within(hits@, self.relation_keys@.len()),
                names::pick(self.relations@, names::at(hits@)) == self.relations@.filter(
                    relation_from(q@),
                ),
                want == relations_of(self.relations@, q@),
                relation_views(out@) =~= want.take(i as int),
            decreases hits@.len() - i,
        {
            let row = &self.relations[hits[i]];
            assert(names::pick(self.relations@, names::at(hits@))[i as int] == *row);
            let ghost before = out@;
            let f = TypeRelationFact {
                relation_kind: row.relation_kind.clone(),
                target_text: row.target_text.clone(),
            };
            out.push(f);
            assert(relation_views(out@) =~= relation_views(before).push(f@));
            assert(want[i as int] == f@);
            i += 1;
        }
        assert(names::pick(self.relations@, names::at(hits@)).len() == hits@.len());
        assert(relation_views(out@) =~= want);
        out
    }

    fn effects_from(&self, q: &str) -> (r: Vec<EffectFact>)
        requires
            self.wf(),
        ensures
            effect_views(r@) == effects_of(self.effects@, q@),
    {
        let hits = self.effect_keys.get(q);
        proof {
            names::lemma_pick_positions(self.effects@, self.effect_keys@, q@, effect_from(q@));
        }
        let ghost want = effects_of(self.effects@, q@);
        let mut out: Vec<EffectFact> = Vec::new();
        let mut i: usize = 0;
        while i < hits.len()
            invariant
                i <= hits@.len(),
                self.wf(),
                names::within(hits@, self.effect_keys@.len()),
                names::pick(self.effects@, names::at(hits@)) == self.effects@.filter(
                    effect_from(q@),
                ),
                want == effects_of(self.effects@, q@),
                effect_views(out@) =~= want.take(i as int),
            decreases hits@.len() - i,
        {
            let row = &self.effects[hits[i]];
            assert(names::pick(self.effects@, names::at(hits@))[i as int] == *row);
            let ghost before = out@;
            let f = EffectFact {
                effect_kind: row.effect_kind.clone(),
                target_text: row.target_text.clone(),
            };
            out.push(f);
            assert(effect_views(out@) =~= effect_views(before).push(f@));
            assert(want[i as int] == f@);
            i += 1;
        }
        assert(names::pick(self.effects@, names::at(hits@)).len() == hits@.len());
        assert(effect_views(out@) =~= want);
        out
    }

    fn facts(&self, s: &DigestSymbol) -> (r: DigestFacts)
        requires
            self.wf(),
        ensures
            r@ == facts_of(self.symbols@, self.calls@, self.relations@, self.effects@, *s),
    {
        let q = s.qualified_name.as_str();
        let known = self.callees(q, true);
        let possible = self.callees(q, false);
        assert(text::texts(known@).len() == known@.len());
        assert(text::texts(possible@).len() == possible@.len());
        let mut effects = self.effects_from(q);
        assert(effect_views(effects@).len() == effects@.len());
        let truncated = known.len() > MAX_CALLEES_SHOWN || possible.len()
            > MAX_POSSIBLE_CALLEES_SHOWN || effects.len() > MAX_EFFECTS_SHOWN;
        let ghost all = effects@;
        effects.truncate(MAX_EFFECTS_SHOWN);
        assert(effect_views(effects@) =~= first_of(effect_views(all), MAX_EFFECTS_SHOWN as nat));
        let signature = match &s.signature {
            Some(x) => x.clone(),
            None => String::new(),
        };
        assert(signature@ =~= or_empty(s.signature));
        DigestFacts {
            name: s.name.clone(),
            kind: s.kind.clone(),
            signature,
            complexity: match s.complexity {
                Some(c) => c,
                None => 1,
            },
            confirmed_callees: self.tagged(&known, MAX_CALLEES_SHOWN),
            possible_callees: self.tagged(&possible, MAX_POSSIBLE_CALLEES_SHOWN),
            type_relations: self.relations_from(q),
            effects,
            recursive_component: self.recursive.contains(q),
            truncated,
        }
    }
}

/// What a digest says: the symbol, the facts, and their text.
pub open spec fn digest_view(d: SymbolDigest) -> (Seq<char>, DigestView, Seq<char>) {
    (d.symbol_qn@, d.facts@, d.rendered_text@)
}

/// The digests of all symbols that have something to summarize, in order.
pub open spec fn digests_of(
    symbols: Seq<DigestSymbol>,
    calls: Seq<EdgeRow>,
    relations: Seq<RelationRow>,
    effects: Seq<EffectRow>,
    n: nat,
) -> Seq<(Seq<char>, DigestView, Seq<char>)>
    decreases n,
{
    if n == 0 || n > symbols.len() {
        seq![]
    } else {
        let init = digests_of(symbols, calls, relations, effects, (n - 1) as nat);
        let s = symbols[n - 1];
        if digestable(s.kind@) {
            let f = facts_of(symbols, calls, relations, effects, s);
            init.push((s.qualified_name@, f, rendering(f)))
        } else {
            init
        }
    }
}

fn is_digestable(kind: &str) -> (r: bool)
    ensures
        r == digestable(kind@),
{
    let k = text::chars_of(kind);
    let k = k.as_slice();
    text::is(k, "function") || text::is(k, "method") || text::is(k, "class") || text::is(
        k,
        "struct",
    ) || text::is(k, "trait") || text::is(k, "interface") || text::is(k, "constructor")
}

/// The digests of all symbols that have something to summarize.
pub fn compute_digests(
    symbols: &Vec<DigestSymbol>,
    calls: &Vec<EdgeRow>,
    relations: &Vec<RelationRow>,
    effects: &Vec<EffectRow>,
) -> (r: Vec<SymbolDigest>)
    ensures
        r@.map_values(|d: SymbolDigest| digest_view(d)) == digests_of(
            symbols@,
            calls@,
            relations@,
            effects@,
            symbols@.len(),
        ),
{
    let recursive = compute_recursive_symbols(calls);
    let mut symbol_keys = KeyIndex::new();
    let mut i: usize = 0;
    while i < symbols.len()
        invariant
            i <= symbols@.len(),
            symbol_keys.wf(),
            symbol_keys@ =~= symbols@.map_values(|s: DigestSymbol| s.qualified_name@).take(
                i as int,
            ),
        decreases symbols@.len() - i,
    {
        symbol_keys.push(symbols[i].qualified_name.as_str(), i);
        i += 1;
    }
    let mut call_keys = KeyIndex::new();
    let mut j: usize = 0;
    while j < calls.len()
        invariant
            j <= calls@.len(),
            call_keys.wf(),
            call_keys@ =~= calls@.map_values(|e: EdgeRow| e.from_symbol@).take(j as int),
        decreases calls@.len() - j,
    {
        call_keys.push(calls[j].from_symbol.as_str(), j);
        j += 1;
    }
    let mut relation_keys = KeyIndex::new();
    let mut k: usize = 0;
    while k < relations.len()
        invariant
            k <= relations@.len(),
            relation_keys.wf(),
            relation_keys@ =~= relations@.map_values(|r: RelationRow| r.from_symbol@).take(
                k as int,
            ),
        decreases relations@.len() - k,
    {
        relation_keys.push(relations[k].from_symbol.as_str(), k);
        k += 1;
    }
    let mut effect_keys = KeyIndex::new();
    let mut l: usize = 0;
    while l < effects.len()
        invariant
            l <= effects@.len(),
            effect_keys.wf(),
            effect_keys@ =~= effects@.map_values(|e: EffectRow| e.symbol_qn@).take(l as int),
        decreases effects@.len() - l,
    {
        effect_keys.push(effects[l].symbol_qn.as_str(), l);
        l += 1;
    }
    let src = Sources {
        symbols,
        calls,
        relations,
        effects,
        symbol_keys,
        call_keys,
        relation_keys,
        effect_keys,
        recursive,
    };
    proof {
        assert(src.symbol_keys@ =~= symbols@.map_values(|s: DigestSymbol| s.qualified_name@));
        assert(src.call_keys@ =~= calls@.map_values(|e: EdgeRow| e.from_symbol@));
        assert(src.relation_keys@ =~= relations@.map_values(|r: RelationRow| r.from_symbol@));
        assert(src.effect_keys@ =~= effects@.map_values(|e: EffectRow| e.symbol_qn@));
    }
    let mut out: Vec<SymbolDigest> = Vec::new();
    let mut m: usize = 0;
    assert(out@.map_values(|d: SymbolDigest| digest_view(d)) =~= seq![]);
    while m < symbols.len()
        invariant
            m <= symbols@.len(),
            src.wf(),
            src.symbols@ == symbols@,
            src.calls@ == calls@,
            src.relations@ == relations@,
            src.effects@ == effects@,
            out@.map_values(|d: SymbolDigest| digest_view(d)) == digests_of(
                symbols@,
                calls@,
                relations@,
                effects@,
                m as nat,
            ),
        decreases symbols@.len() - m,
    {
        let s = &symbols[m];
        if is_digestable(s.kind.as_str()) {
            let facts = src.facts(s);
            let rendered_text = render_digest(&facts);
            let ghost before = out@;
            let d = SymbolDigest { symbol_qn: s.qualified_name.clone(), facts, rendered_text };
            out.push(d);
            assert(out@.map_values(|d: SymbolDigest| digest_view(d)) =~= before.map_values(
                |d: SymbolDigest| digest_view(d),
            ).push(digest_view(d)));
        }
        m += 1;
    }
    out
}

/// What is shown of a symbol is bounded, and nothing is left out unsaid.
pub proof fn lemma_digest_bounded(
    symbols: Seq<DigestSymbol>,
    calls: Seq<EdgeRow>,
    relations: Seq<RelationRow>,
    effects: Seq<EffectRow>,
    s: DigestSymbol,
)
    ensures
        ({
            let f = facts_of(symbols, calls, relations, effects, s);
            let q = s.qualified_name@;
            &&& f.confirmed_callees.len() <= MAX_CALLEES_SHOWN
            &&& f.possible_callees.len() <= MAX_POSSIBLE_CALLEES_SHOWN
            &&& f.effects.len() <= MAX_EFFECTS_SHOWN
            &&& !f.truncated ==> f.confirmed_callees.len() == callees_of(calls, q, true).len()
                && f.possible_callees.len() == callees_of(calls, q, false).len() && f.effects
                == effects_of(effects, q)
        }),
{
}

} // verus!
