//! The symbols of one file and the qualified names they are stored under.

use crate::names::NameTable;
use crate::text;
use vstd::prelude::*;

verus! {

/// What a symbol is; `Other` stands for kinds that no rule here looks at.
#[derive(Clone, Copy, Debug, PartialEq, Eq, Structural)]
pub enum SymbolKind {
    Function,
    Method,
    Class,
    Struct,
    Trait,
    Interface,
    Enum,
    Other,
}

/// One symbol that a parser found in a file.
pub struct ParsedSymbol {
    pub qualified_name: String,
    pub name: String,
    pub kind: SymbolKind,
    /// The stored spelling of the kind.
    pub kind_text: String,
    pub language: String,
    pub path: String,
    pub line_start: usize,
    pub line_end: usize,
    pub start_byte: usize,
    pub signature: String,
    pub docstring: String,
    pub name_tokens: String,
    pub class_context: Option<String>,
    pub is_entry_point: bool,
    pub is_test: bool,
    pub complexity: i64,
    pub arity: Option<i64>,
    pub arity_variadic: bool,
}

/// The name of a symbol within its file: methods are qualified by their class.
pub open spec fn own_name(rel: Seq<char>, s: ParsedSymbol) -> Seq<char> {
    match s.class_context {
        Some(c) => rel + "::"@ + c@ + "::"@ + s.name@,
        None => rel + "::"@ + s.name@,
    }
}

/// `base` with a number behind it.
pub open spec fn numbered(base: Seq<char>, n: nat) -> Seq<char> {
    base + "#"@ + text::decimal(n)
}

/// Is `k` the first number from 2 on under which `base` is not taken?
pub open spec fn first_free(taken: Seq<Seq<char>>, base: Seq<char>, k: nat) -> bool {
    &&& k >= 2
    &&& !taken.contains(numbered(base, k))
    &&& forall|j: nat| 2 <= j < k ==> taken.contains(#[trigger] numbered(base, j))
}

/// The name a symbol gets when the names in `taken` are gone: its own, or its
/// own with the line behind it, or that with the first free number behind it.
pub open spec fn free_name(taken: Seq<Seq<char>>, own: Seq<char>, line: nat) -> Seq<char> {
    let base = numbered(own, line);
    if !taken.contains(own) {
        own
    } else if !taken.contains(base) {
        base
    } else {
        numbered(base, choose|k: nat| first_free(taken, base, k))
    }
}

/// The names of the first `n` symbols, in order.
pub open spec fn assigned(rel: Seq<char>, symbols: Seq<ParsedSymbol>, n: nat) -> Seq<Seq<char>>
    decreases n,
{
    if n == 0 || n > symbols.len() {
        seq![]
    } else {
        let taken = assigned(rel, symbols, (n - 1) as nat);
        let s = symbols[n - 1];
        taken.push(free_name(taken, own_name(rel, s), s.line_start as nat))
    }
}

proof fn lemma_numbered_injective(base: Seq<char>, a: nat, b: nat)
    requires
        numbered(base, a) == numbered(base, b),
    ensures
        a == b,
{
    let x = numbered(base, a);
    let y = numbered(base, b);
    let m = (base + "#"@).len() as int;
    assert(x.skip(m) =~= text::decimal(a));
    assert(y.skip(m) =~= text::decimal(b));
    text::lemma_decimal_injective(a, b);
}

proof fn lemma_numbered_longer(base: Seq<char>, a: nat)
    ensures
        numbered(base, a) != base,
{
    text::lemma_decimal_len(a);
    assert(numbered(base, a).len() > base.len());
}

/// Where `base` and all its numbers below `m` are taken, at least that many
/// names are.
proof fn lemma_taken_bound(taken: Seq<Seq<char>>, base: Seq<char>, m: nat)
    requires
        m >= 2,
        taken.contains(base),
        forall|j: nat| 2 <= j < m ==> taken.contains(#[trigger] numbered(base, j)),
    ensures
        m - 2 < taken.len(),
{
    let all = taken.to_set();
    taken.lemma_cardinality_of_set();
    vstd::seq_lib::seq_to_set_is_finite(taken);
    let f = |j: int| numbered(base, j as nat);
    let range = vstd::set_lib::set_int_range(2, m as int);
    vstd::set_lib::lemma_int_range(2, m as int);
    let image = range.map(f);
    assert(forall|x: int, y: int|
        #![trigger f(x), f(y)]
        range.contains(x) && range.contains(y) && f(x) == f(y) ==> x == y) by {
        assert forall|x: int, y: int|
            #![trigger f(x), f(y)]
            range.contains(x) && range.contains(y) && f(x) == f(y) implies x == y by {
            lemma_numbered_injective(base, x as nat, y as nat);
        }
    }
    vstd::set_lib::lemma_map_size(range, image, f);
    assert forall|n: Seq<char>| #[trigger] image.contains(n) implies all.remove(base).contains(
        n,
    ) by {
        let j = choose|j: int| range.contains(j) && n == f(j);
        lemma_numbered_longer(base, j as nat);
        assert(taken.contains(numbered(base, j as nat)));
    }
    vstd::set_lib::lemma_len_subset(image, all.remove(base));
    assert(all.contains(base));
}

/// Some number is free: finitely many names are taken.
pub proof fn lemma_first_free_exists(taken: Seq<Seq<char>>, base: Seq<char>, from: nat)
    requires
        from >= 2,
        taken.contains(base),
        forall|j: nat| 2 <= j < from ==> taken.contains(#[trigger] numbered(base, j)),
    ensures
        exists|k: nat| first_free(taken, base, k),
    decreases taken.len() + 2 - from,
{
    lemma_taken_bound(taken, base, from);
    if taken.contains(numbered(base, from)) {
        assert forall|j: nat| 2 <= j < from + 1 implies taken.contains(
            #[trigger] numbered(base, j),
        ) by {
            if j == from {
            }
        }
        lemma_first_free_exists(taken, base, from + 1);
    } else {
        assert(first_free(taken, base, from));
    }
}

/// A free name is not taken.
pub proof fn lemma_free_name(taken: Seq<Seq<char>>, own: Seq<char>, line: nat)
    ensures
        !taken.contains(free_name(taken, own, line)),
{
    let base = numbered(own, line);
    if taken.contains(base) {
        lemma_first_free_exists(taken, base, 2);
        let k = choose|k: nat| first_free(taken, base, k);
        assert(first_free(taken, base, k));
    }
}

/// No two symbols of a file are stored under the same qualified name.
pub proof fn lemma_names_distinct(rel: Seq<char>, symbols: Seq<ParsedSymbol>, n: nat)
    requires
        n <= symbols.len(),
    ensures
        assigned(rel, symbols, n).len() == n,
        assigned(rel, symbols, n).no_duplicates(),
    decreases n,
{
    if n > 0 {
        let taken = assigned(rel, symbols, (n - 1) as nat);
        let s = symbols[n - 1];
        lemma_names_distinct(rel, symbols, (n - 1) as nat);
        lemma_free_name(taken, own_name(rel, s), s.line_start as nat);
        let r = assigned(rel, symbols, n);
        assert forall|i: int, j: int| 0 <= i < j < n implies r[i] != r[j] by {
            if j == n - 1 {
                assert(taken.contains(taken[i]));
            }
        }
    }
}

/// The names of an earlier part of the list do not change with what follows.
proof fn lemma_assigned_prefix(rel: Seq<char>, symbols: Seq<ParsedSymbol>, m: nat, n: nat)
    requires
        m <= n <= symbols.len(),
    ensures
        assigned(rel, symbols, n).len() == n,
        assigned(rel, symbols, m) == assigned(rel, symbols, n).take(m as int),
    decreases n,
{
    if m == n {
        if n > 0 {
            lemma_assigned_prefix(rel, symbols, (n - 1) as nat, (n - 1) as nat);
        }
        assert(assigned(rel, symbols, n).take(m as int) =~= assigned(rel, symbols, n));
    } else {
        lemma_assigned_prefix(rel, symbols, m, (n - 1) as nat);
        assert(assigned(rel, symbols, n).take(m as int) =~= assigned(
            rel,
            symbols,
            (n - 1) as nat,
        ).take(m as int));
    }
}

/// A symbol keeps its own name where no earlier symbol of the file has it.
pub proof fn lemma_first_keeps_own_name(rel: Seq<char>, symbols: Seq<ParsedSymbol>, i: nat)
    requires
        i < symbols.len(),
        !assigned(rel, symbols, i).contains(own_name(rel, symbols[i as int])),
    ensures
        assigned(rel, symbols, symbols.len())[i as int] == own_name(rel, symbols[i as int]),
{
    lemma_assigned_prefix(rel, symbols, i + 1, symbols.len());
    assert(assigned(rel, symbols, i + 1).last() == own_name(rel, symbols[i as int]));
}

fn append_number(base: &str, n: usize) -> (r: String)
    ensures
        r@ == numbered(base@, n as nat),
{
    let mut out: String = base.to_owned();
    text::push_text(&mut out, "#");
    text::push_decimal(&mut out, n as u64);
    out
}

fn build_own_name(rel: &str, s: &ParsedSymbol) -> (r: String)
    ensures
        r@ == own_name(rel@, *s),
{
    let mut out: String = rel.to_owned();
    text::push_text(&mut out, "::");
    if let Some(c) = &s.class_context {
        text::push_text(&mut out, c.as_str());
        text::push_text(&mut out, "::");
    }
    text::push_text(&mut out, s.name.as_str());
    out
}

/// Pick a name that is not taken.
fn pick_name(taken: &NameTable, own: String, line: usize) -> (r: String)
    requires
        taken.wf(),
        taken@.len() < usize::MAX,
    ensures
        r@ == free_name(taken@, own@, line as nat),
{
    if !taken.contains(own.as_str()) {
        return own;
    }
    let base = append_number(own.as_str(), line);
    if !taken.contains(base.as_str()) {
        return base;
    }
    let ghost names = taken@;
    let mut k: usize = 2;
    let mut candidate = append_number(base.as_str(), k);
    proof {
        lemma_taken_bound(names, base@, 2);
    }
    while taken.contains(candidate.as_str())
        invariant
            taken.wf(),
            taken@ == names,
            names.len() < usize::MAX,
            names.contains(base@),
            k >= 2,
            k - 2 < names.len(),
            candidate@ == numbered(base@, k as nat),
            forall|j: nat| 2 <= j < k ==> names.contains(#[trigger] numbered(base@, j)),
        decreases names.len() + 2 - k,
    {
        proof {
            assert forall|j: nat| 2 <= j < k + 1 implies names.contains(
                #[trigger] numbered(base@, j),
            ) by {
                if j == k {
                }
            }
            lemma_taken_bound(names, base@, (k + 1) as nat);
        }
        k += 1;
        candidate = append_number(base.as_str(), k);
    }
    proof {
        assert(first_free(names, base@, k as nat));
        let c = choose|c: nat| first_free(names, base@, c);
        assert(first_free(names, base@, c));
        if c < k {
            assert(names.contains(numbered(base@, c)));
        }
        if (k as nat) < c {
            assert(names.contains(numbered(base@, k as nat)));
        }
    }
    candidate
}

/// Does a configured pattern name the symbol, bare or qualified, exactly?
pub open spec fn is_listed(patterns: Seq<Seq<char>>, name: Seq<char>, qualified: Seq<char>) -> bool {
    patterns.contains(name) || patterns.contains(qualified)
}

/// Can a symbol of this kind be an entry point?
pub open spec fn is_callable(kind: SymbolKind) -> bool {
    kind == SymbolKind::Function || kind == SymbolKind::Method
}

/// `r` is `s` as it is stored: under `name`, in the file `rel`, marked as an
/// entry point where the parser or a pattern says so.
pub open spec fn stored_as(
    s: ParsedSymbol,
    r: ParsedSymbol,
    rel: Seq<char>,
    name: Seq<char>,
    patterns: Seq<Seq<char>>,
) -> bool {
    &&& r.qualified_name@ == name
    &&& r.path@ == rel
    &&& r.is_entry_point == (s.is_entry_point || is_callable(s.kind) && is_listed(
        patterns,
        s.name@,
        name,
    ))
    &&& r.name == s.name
    &&& r.kind == s.kind
    &&& r.kind_text == s.kind_text
    &&& r.language == s.language
    &&& r.line_start == s.line_start
    &&& r.line_end == s.line_end
    &&& r.start_byte == s.start_byte
    &&& r.signature == s.signature
    &&& r.docstring == s.docstring
    &&& r.name_tokens == s.name_tokens
    &&& r.class_context == s.class_context
    &&& r.is_test == s.is_test
    &&& r.complexity == s.complexity
    &&& r.arity == s.arity
    &&& r.arity_variadic == s.arity_variadic
}

/// Give every symbol of a file its qualified name.
pub fn name_symbols(
    rel: &str,
    symbols: Vec<ParsedSymbol>,
    entry_point_patterns: &Vec<String>,
) -> (r: Vec<ParsedSymbol>)
    ensures
        r@.len() == symbols@.len(),
        forall|i: int|
            0 <= i < r@.len() ==> stored_as(
                symbols@[i],
                #[trigger] r@[i],
                rel@,
                assigned(rel@, symbols@, symbols@.len())[i],
                text::texts(entry_point_patterns@),
            ),
{
    let ghost raw = symbols@;
    let ghost pats = text::texts(entry_point_patterns@);
    let mut out: Vec<ParsedSymbol> = symbols;
    let mut taken = NameTable::new();
    let mut i: usize = 0;
    assert(taken@ =~= assigned(rel@, raw, 0));
    while i < out.len()
        invariant
            i <= out@.len(),
            out@.len() == raw.len(),
            pats == text::texts(entry_point_patterns@),
            taken.wf(),
            taken@ == assigned(rel@, raw, i as nat),
            taken@.len() == i,
            forall|j: int| i <= j < raw.len() ==> #[trigger] out@[j] == raw[j],
            forall|j: int|
                0 <= j < i ==> stored_as(
                    raw[j],
                    #[trigger] out@[j],
                    rel@,
                    assigned(rel@, raw, i as nat)[j],
                    pats,
                ),
        decreases raw.len() - i,
    {
        let ghost before = out@;
        let own = build_own_name(rel, &out[i]);
        let ghost own_text = own@;
        assert(own_text == own_name(rel@, raw[i as int]));
        let name = pick_name(&taken, own, out[i].line_start);
        let ghost old_taken = taken@;
        proof {
            lemma_free_name(taken@, own_text, raw[i as int].line_start as nat);
        }
        let _id: usize = taken.intern(name.as_str());
        let listed = text::has_text(entry_point_patterns, out[i].name.as_str())
            || text::has_text(entry_point_patterns, name.as_str());
        let callable = out[i].kind == SymbolKind::Function || out[i].kind == SymbolKind::Method;
        let mark = out[i].is_entry_point || callable && listed;
        proof {
            lemma_assigned_prefix(rel@, raw, i as nat, (i + 1) as nat);
            assert(taken@ =~= assigned(rel@, raw, (i + 1) as nat));
        }
        let ghost stored = name@;
        out[i].qualified_name = name;
        out[i].path = rel.to_owned();
        out[i].is_entry_point = mark;
        proof {
            assert(stored_as(raw[i as int], out@[i as int], rel@, stored, pats));
            let now = assigned(rel@, raw, (i + 1) as nat);
            assert forall|j: int| 0 <= j < i + 1 implies stored_as(
                raw[j],
                #[trigger] out@[j],
                rel@,
                now[j],
                pats,
            ) by {
                if j < i {
                    assert(out@[j] == before[j]);
                    assert(now[j] == old_taken[j]);
                }
            }
        }
        i += 1;
    }
    out
}

} // verus!
