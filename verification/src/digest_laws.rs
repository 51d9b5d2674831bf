//! What a digest says: every fact that it holds stands in its text, and the
//! facts are those of the stored rows.

use vstd::prelude::*;

use crate::cycles;
use crate::digest;
use crate::digest::{CalleeView, DigestSymbol, DigestView, EffectRow, RelationRow};
use crate::digraph::EdgeRow;
use crate::graph_laws;
use crate::text;

verus! {

/// `x` stands in `t` as a sentence: at the start or behind a blank, and up to
/// the end or a blank.
pub open spec fn says(t: Seq<char>, x: Seq<char>) -> bool {
    exists|p: Seq<char>, q: Seq<char>| #[trigger]
        framed(t, p, x, q) && (p.len() == 0 || p.last() == ' ') && (q.len() == 0 || q[0] == ' ')
}

pub open spec fn framed(t: Seq<char>, p: Seq<char>, x: Seq<char>, q: Seq<char>) -> bool {
    t == p + x + q
}

/// The text is a list in which `item` stands between commas.
pub open spec fn lists(t: Seq<char>, item: Seq<char>) -> bool {
    exists|p: Seq<char>, q: Seq<char>| #[trigger]
        framed(t, p, item, q) && (p.len() == 0 || (p.len() >= 2 && p[p.len() - 2] == ','
            && p[p.len() - 1] == ' ')) && (q.len() == 0 || (q.len() >= 2 && q[0] == ',' && q[1]
            == ' '))
}

/// The text has a sentence that is the label, a list with `item` in it, and a
/// full stop.
pub open spec fn says_of(t: Seq<char>, label: Seq<char>, item: Seq<char>) -> bool {
    exists|l: Seq<char>| #[trigger] lists(l, item) && says(t, label + l + "."@)
}

/// What stands before and behind one of the parts that are joined.
proof fn lemma_joined_part(parts: Seq<Seq<char>>, sep: Seq<char>, i: int) -> (r: (
    Seq<char>,
    Seq<char>,
))
    requires
        0 <= i < parts.len(),
        sep.len() > 0,
    ensures
        text::joined(parts, sep) == r.0 + parts[i] + r.1,
        i == 0 ==> r.0.len() == 0,
        i > 0 ==> r.0.len() >= sep.len() && r.0.skip(r.0.len() - sep.len()) == sep,
        i == parts.len() - 1 ==> r.1.len() == 0,
        i < parts.len() - 1 ==> r.1.len() >= sep.len() && r.1.take(sep.len() as int) == sep,
    decreases parts.len(),
{
    let none = Seq::<char>::empty();
    if parts.len() == 1 {
        assert(text::joined(parts, sep) =~= none + parts[0] + none);
        (none, none)
    } else {
        let less = parts.drop_last();
        let front = text::joined(less, sep);
        if i == parts.len() - 1 {
            let p = front + sep;
            assert(p.skip(p.len() - sep.len()) =~= sep);
            assert(text::joined(parts, sep) =~= p + parts[i] + none);
            (p, none)
        } else {
            let (p, q) = lemma_joined_part(less, sep, i);
            let all = q + sep + parts.last();
            assert(less[i] == parts[i]);
            assert(text::joined(parts, sep) =~= p + parts[i] + all);
            assert(all.take(sep.len() as int) =~= sep) by {
                if q.len() > 0 {
                    assert(forall|j: int| 0 <= j < sep.len() ==> q.take(sep.len() as int)[j] == q[j]);
                }
            }
            (p, all)
        }
    }
}

proof fn lemma_says_part(parts: Seq<Seq<char>>, i: int)
    requires
        0 <= i < parts.len(),
    ensures
        says(text::joined(parts, " "@), parts[i]),
{
    reveal_strlit(" ");
    let (p, q) = lemma_joined_part(parts, " "@, i);
    if i > 0 {
        assert(p.skip(p.len() - 1)[0] == p.last());
    }
    if i < parts.len() - 1 {
        assert(q.take(1)[0] == q[0]);
    }
    assert(framed(text::joined(parts, " "@), p, parts[i], q));
}

proof fn lemma_lists_part(parts: Seq<Seq<char>>, i: int)
    requires
        0 <= i < parts.len(),
    ensures
        lists(text::joined(parts, ", "@), parts[i]),
{
    reveal_strlit(", ");
    let (p, q) = lemma_joined_part(parts, ", "@, i);
    if i > 0 {
        let e = p.skip(p.len() - 2);
        assert(e[0] == p[p.len() - 2] && e[1] == p[p.len() - 1]);
    }
    if i < parts.len() - 1 {
        let e = q.take(2);
        assert(e[0] == q[0] && e[1] == q[1]);
    }
    assert(framed(text::joined(parts, ", "@), p, parts[i], q));
}

proof fn lemma_says_sentence(
    f: DigestView,
    pre: Seq<Seq<char>>,
    label: Seq<char>,
    items: Seq<Seq<char>>,
    post: Seq<Seq<char>>,
    i: int,
)
    requires
        digest::sentences(f) == pre + digest::sentence(label, items) + post,
        0 <= i < items.len(),
    ensures
        says_of(digest::rendering(f), label, items[i]),
{
    let all = digest::sentences(f);
    let l = text::joined(items, ", "@);
    assert(all[pre.len() as int] == label + l + "."@);
    lemma_lists_part(items, i);
    lemma_says_part(all, pre.len() as int);
}

proof fn lemma_of_kind(v: Seq<digest::Labelled>, kind: Seq<char>, i: int) -> (j: int)
    requires
        0 <= i < v.len(),
        v[i].0 == kind,
    ensures
        0 <= j < digest::of_kind(v, kind).len(),
        digest::of_kind(v, kind)[j] == v[i].1,
    decreases v.len(),
{
    if i == v.len() - 1 {
        digest::of_kind(v, kind).len() - 1
    } else {
        let less = v.drop_last();
        assert(less[i] == v[i]);
        lemma_of_kind(less, kind, i)
    }
}

spec fn head_of(f: DigestView) -> Seq<Seq<char>> {
    seq![f.kind + " "@ + f.name + "."@] + (if f.signature.len() == 0 {
        seq![]
    } else {
        seq!["Signature: "@ + f.signature]
    })
}

spec fn tail_of(f: DigestView) -> Seq<Seq<char>> {
    (if f.complexity > 1 {
        seq!["Complexity: "@ + text::decimal(f.complexity as nat) + "."@]
    } else {
        seq![]
    }) + (if f.recursive_component {
        seq!["Participates in a call cycle."@]
    } else {
        seq![]
    })
}

/// The text of a digest opens with the kind and the name, and says the
/// signature, a complexity above one, and that the symbol is part of a cycle.
#[verifier::rlimit(40)]
pub proof fn lemma_digest_says_symbol(f: DigestView)
    ensures
        f.kind + " "@ + f.name + "."@ == digest::rendering(f).take(
            (f.kind + " "@ + f.name + "."@).len() as int,
        ),
        f.signature.len() > 0 ==> says(digest::rendering(f), "Signature: "@ + f.signature),
        f.complexity > 1 ==> says(
            digest::rendering(f),
            "Complexity: "@ + text::decimal(f.complexity as nat) + "."@,
        ),
        f.recursive_component ==> says(
            digest::rendering(f),
            "Participates in a call cycle."@,
        ),
{
    let all = digest::sentences(f);
    let head = f.kind + " "@ + f.name + "."@;
    reveal_strlit(" ");
    assert(all[0] == head);
    let (p, q) = lemma_joined_part(all, " "@, 0);
    assert(digest::rendering(f).take(head.len() as int) =~= head);
    if f.signature.len() > 0 {
        assert(all[1] == "Signature: "@ + f.signature);
        lemma_says_part(all, 1);
    }
    let n = all.len() as int;
    let t = tail_of(f);
    assert(forall|j: int| 0 <= j < t.len() ==> all[n - t.len() + j] == t[j]) by {
        let a = head_of(f) + digest::sentence(
            "Calls: "@,
            digest::callee_texts(f.confirmed_callees),
        ) + digest::sentence("Possibly calls: "@, digest::callee_texts(f.possible_callees));
        let e = digest::sentence("Extends: "@, digest::of_kind(f.type_relations, "extends"@));
        let m = digest::sentence("Implements: "@, digest::of_kind(f.type_relations, "implements"@));
        let w = digest::sentence("Writes: "@, digest::of_kind(f.effects, "write_field"@));
        let h = digest::sentence("Throws: "@, digest::of_kind(f.effects, "explicit_throw"@));
        lemma_sentences(f);
        lemma_split(a, e, m, w, h, t);
    }
    if f.complexity > 1 {
        assert(t[0] == "Complexity: "@ + text::decimal(f.complexity as nat) + "."@);
        lemma_says_part(all, n - t.len());
    }
    if f.recursive_component {
        assert(t[t.len() - 1] == "Participates in a call cycle."@);
        lemma_says_part(all, n - 1);
    }
}

/// Every type that the symbol extends or implements is named in the text, in
/// the sentence for it.
pub proof fn lemma_digest_says_relations(f: DigestView, i: int)
    requires
        0 <= i < f.type_relations.len(),
    ensures
        f.type_relations[i].0 == "extends"@ ==> says_of(
            digest::rendering(f),
            "Extends: "@,
            f.type_relations[i].1,
        ),
        f.type_relations[i].0 == "implements"@ ==> says_of(
            digest::rendering(f),
            "Implements: "@,
            f.type_relations[i].1,
        ),
{
    let a = head_of(f) + digest::sentence(
        "Calls: "@,
        digest::callee_texts(f.confirmed_callees),
    ) + digest::sentence("Possibly calls: "@, digest::callee_texts(f.possible_callees));
    let extended = digest::of_kind(f.type_relations, "extends"@);
    let implemented = digest::of_kind(f.type_relations, "implements"@);
    let e = digest::sentence("Extends: "@, extended);
    let m = digest::sentence("Implements: "@, implemented);
    let w = digest::sentence("Writes: "@, digest::of_kind(f.effects, "write_field"@));
    let t = digest::sentence("Throws: "@, digest::of_kind(f.effects, "explicit_throw"@));
    lemma_sentences(f);
    lemma_split(a, e, m, w, t, tail_of(f));
    if f.type_relations[i].0 == "extends"@ {
        let j = lemma_of_kind(f.type_relations, "extends"@, i);
        lemma_says_sentence(f, a, "Extends: "@, extended, m + w + t + tail_of(f), j);
    }
    if f.type_relations[i].0 == "implements"@ {
        let j = lemma_of_kind(f.type_relations, "implements"@, i);
        lemma_says_sentence(f, a + e, "Implements: "@, implemented, w + t + tail_of(f), j);
    }
}

/// Every field that the symbol writes and everything that it throws is named in
/// the text, in the sentence for it.
pub proof fn lemma_digest_says_effects(f: DigestView, i: int)
    requires
        0 <= i < f.effects.len(),
    ensures
        f.effects[i].0 == "write_field"@ ==> says_of(
            digest::rendering(f),
            "Writes: "@,
            f.effects[i].1,
        ),
        f.effects[i].0 == "explicit_throw"@ ==> says_of(
            digest::rendering(f),
            "Throws: "@,
            f.effects[i].1,
        ),
{
    let a = head_of(f) + digest::sentence(
        "Calls: "@,
        digest::callee_texts(f.confirmed_callees),
    ) + digest::sentence("Possibly calls: "@, digest::callee_texts(f.possible_callees));
    let e = digest::sentence("Extends: "@, digest::of_kind(f.type_relations, "extends"@));
    let m = digest::sentence("Implements: "@, digest::of_kind(f.type_relations, "implements"@));
    let written = digest::of_kind(f.effects, "write_field"@);
    let thrown = digest::of_kind(f.effects, "explicit_throw"@);
    let w = digest::sentence("Writes: "@, written);
    let t = digest::sentence("Throws: "@, thrown);
    lemma_sentences(f);
    lemma_split(a, e, m, w, t, tail_of(f));
    if f.effects[i].0 == "write_field"@ {
        let j = lemma_of_kind(f.effects, "write_field"@, i);
        lemma_says_sentence(f, a + e + m, "Writes: "@, written, t + tail_of(f), j);
    }
    if f.effects[i].0 == "explicit_throw"@ {
        let j = lemma_of_kind(f.effects, "explicit_throw"@, i);
        lemma_says_sentence(f, a + e + m + w, "Throws: "@, thrown, tail_of(f), j);
    }
}

/// A callee with up to two tags reads as its name, with the tags behind it in
/// brackets.
pub open spec fn shown_as(c: CalleeView) -> Seq<char> {
    if c.role_tags.len() == 0 {
        c.name
    } else if c.role_tags.len() == 1 {
        c.name + " ["@ + c.role_tags[0] + "]"@
    } else {
        c.name + " ["@ + c.role_tags[0] + " "@ + c.role_tags[1] + "]"@
    }
}

proof fn lemma_callee_text(c: CalleeView)
    requires
        c.role_tags.len() <= 2,
    ensures
        digest::callee_text(c) == shown_as(c),
{
    reveal_with_fuel(text::joined, 3);
    if c.role_tags.len() == 2 {
        assert(c.role_tags.drop_last().len() == 1);
        assert(text::joined(c.role_tags, " "@) =~= c.role_tags[0] + " "@ + c.role_tags[1]);
        assert(digest::callee_text(c) =~= shown_as(c));
    }
}

proof fn lemma_regroup(
    a: Seq<Seq<char>>,
    b: Seq<Seq<char>>,
    c: Seq<Seq<char>>,
    d: Seq<Seq<char>>,
    e: Seq<Seq<char>>,
    x: Seq<Seq<char>>,
    y: Seq<Seq<char>>,
)
    ensures
        a + b + c + d + e + x + y == a + (b + c + d + e + (x + y)),
{
    assert(a + b + c + d + e + x + y =~= a + (b + c + d + e + (x + y)));
}

proof fn lemma_split(
    a: Seq<Seq<char>>,
    b: Seq<Seq<char>>,
    c: Seq<Seq<char>>,
    d: Seq<Seq<char>>,
    e: Seq<Seq<char>>,
    t: Seq<Seq<char>>,
)
    ensures
        a + (b + c + d + e + t) == a + b + (c + d + e + t),
        a + (b + c + d + e + t) == (a + b) + c + (d + e + t),
        a + (b + c + d + e + t) == (a + b + c) + d + (e + t),
        a + (b + c + d + e + t) == (a + b + c + d) + e + t,
{
    assert(a + (b + c + d + e + t) =~= a + b + (c + d + e + t));
    assert(a + (b + c + d + e + t) =~= (a + b) + c + (d + e + t));
    assert(a + (b + c + d + e + t) =~= (a + b + c) + d + (e + t));
    assert(a + (b + c + d + e + t) =~= (a + b + c + d) + e + t);
}

proof fn lemma_sentences(f: DigestView)
    ensures
        digest::sentences(f) == head_of(f) + digest::sentence(
            "Calls: "@,
            digest::callee_texts(f.confirmed_callees),
        ) + digest::sentence("Possibly calls: "@, digest::callee_texts(f.possible_callees)) + (
        digest::sentence("Extends: "@, digest::of_kind(f.type_relations, "extends"@))
            + digest::sentence("Implements: "@, digest::of_kind(f.type_relations, "implements"@))
            + digest::sentence("Writes: "@, digest::of_kind(f.effects, "write_field"@))
            + digest::sentence("Throws: "@, digest::of_kind(f.effects, "explicit_throw"@))
            + tail_of(f)),
{
    lemma_regroup(
        head_of(f) + digest::sentence("Calls: "@, digest::callee_texts(f.confirmed_callees))
            + digest::sentence("Possibly calls: "@, digest::callee_texts(f.possible_callees)),
        digest::sentence("Extends: "@, digest::of_kind(f.type_relations, "extends"@)),
        digest::sentence("Implements: "@, digest::of_kind(f.type_relations, "implements"@)),
        digest::sentence("Writes: "@, digest::of_kind(f.effects, "write_field"@)),
        digest::sentence("Throws: "@, digest::of_kind(f.effects, "explicit_throw"@)),
        (if f.complexity > 1 {
            seq!["Complexity: "@ + text::decimal(f.complexity as nat) + "."@]
        } else {
            seq![]
        }),
        (if f.recursive_component {
            seq!["Participates in a call cycle."@]
        } else {
            seq![]
        }),
    );
}

/// Every callee is named in the text with its tags: the known ones in the
/// sentence for them, the possible ones in theirs.
pub proof fn lemma_digest_says_callees(f: DigestView, i: int)
    requires
        0 <= i < f.confirmed_callees.len() ==> f.confirmed_callees[i].role_tags.len() <= 2,
        0 <= i < f.possible_callees.len() ==> f.possible_callees[i].role_tags.len() <= 2,
    ensures
        0 <= i < f.confirmed_callees.len() ==> says_of(
            digest::rendering(f),
            "Calls: "@,
            shown_as(f.confirmed_callees[i]),
        ),
        0 <= i < f.possible_callees.len() ==> says_of(
            digest::rendering(f),
            "Possibly calls: "@,
            shown_as(f.possible_callees[i]),
        ),
{
    let rest = digest::sentence("Extends: "@, digest::of_kind(f.type_relations, "extends"@))
        + digest::sentence("Implements: "@, digest::of_kind(f.type_relations, "implements"@))
        + digest::sentence("Writes: "@, digest::of_kind(f.effects, "write_field"@))
        + digest::sentence("Throws: "@, digest::of_kind(f.effects, "explicit_throw"@)) + tail_of(f);
    let sure = digest::callee_texts(f.confirmed_callees);
    let maybe = digest::callee_texts(f.possible_callees);
    let c = digest::sentence("Calls: "@, sure);
    let p = digest::sentence("Possibly calls: "@, maybe);
    if 0 <= i < f.confirmed_callees.len() {
        lemma_callee_text(f.confirmed_callees[i]);
        lemma_sentences(f);
        assert(head_of(f) + c + p + rest =~= head_of(f) + c + (p + rest));
        lemma_says_sentence(f, head_of(f), "Calls: "@, sure, p + rest, i);
    }
    if 0 <= i < f.possible_callees.len() {
        lemma_callee_text(f.possible_callees[i]);
        lemma_sentences(f);
        lemma_says_sentence(f, head_of(f) + c, "Possibly calls: "@, maybe, rest, i);
    }
}

proof fn lemma_of_kind_none(v: Seq<digest::Labelled>, kind: Seq<char>)
    requires
        forall|i: int| 0 <= i < v.len() ==> (#[trigger] v[i]).0 != kind,
    ensures
        digest::of_kind(v, kind).len() == 0,
    decreases v.len(),
{
    if v.len() > 0 {
        let less = v.drop_last();
        assert(forall|i: int| 0 <= i < less.len() ==> (#[trigger] less[i]) == v[i]);
        assert(v[v.len() - 1].0 != kind);
        lemma_of_kind_none(less, kind);
    }
}

/// A digest without facts says the kind and the name, and nothing more.
pub proof fn lemma_digest_says_no_more(f: DigestView)
    requires
        f.signature.len() == 0,
        f.complexity <= 1,
        f.confirmed_callees.len() == 0,
        f.possible_callees.len() == 0,
        forall|i: int|
            0 <= i < f.type_relations.len() ==> (#[trigger] f.type_relations[i]).0 != "extends"@
                && f.type_relations[i].0 != "implements"@,
        forall|i: int|
            0 <= i < f.effects.len() ==> (#[trigger] f.effects[i]).0 != "write_field"@
                && f.effects[i].0 != "explicit_throw"@,
        !f.recursive_component,
    ensures
        digest::rendering(f) == f.kind + " "@ + f.name + "."@,
{
    lemma_of_kind_none(f.type_relations, "extends"@);
    lemma_of_kind_none(f.type_relations, "implements"@);
    lemma_of_kind_none(f.effects, "write_field"@);
    lemma_of_kind_none(f.effects, "explicit_throw"@);
    assert(digest::sentences(f) =~= seq![f.kind + " "@ + f.name + "."@]);
}

/// Some row that is not ruled out runs from `q` to `n`: a formal or a resolved
/// one where the callee is known, else an inferred one.
pub open spec fn shows_it(rows: Seq<EdgeRow>, q: Seq<char>, known: bool, n: Seq<char>) -> bool {
    exists|k: int| 0 <= k < rows.len() && #[trigger] row_shows(rows[k], q, known, n)
}

pub open spec fn row_shows(r: EdgeRow, q: Seq<char>, known: bool, n: Seq<char>) -> bool {
    r.from_symbol@ == q && r.to_symbol@ == n && !r.ruled_out_by_scip && (if known {
        r.edge_confidence@ == "formal"@ || r.edge_confidence@ == "resolved"@
    } else {
        r.edge_confidence@ == "inferred"@
    })
}

#[verifier::rlimit(40)]
proof fn lemma_shown_targets(all: Seq<EdgeRow>, q: Seq<char>, known: bool, n: Seq<char>)
    ensures
        digest::shown_targets(all.filter(digest::call_from(q)), known).contains(n) <==> shows_it(
            all,
            q,
            known,
            n,
        ),
    decreases all.len(),
{
    reveal(Seq::filter);
    let sub = all.filter(digest::call_from(q));
    let found = digest::shown_targets(sub, known);
    if all.len() > 0 {
        let less = all.drop_last();
        let kept = less.filter(digest::call_from(q));
        let init = digest::shown_targets(kept, known);
        let e = all.last();
        lemma_shown_targets(less, q, known, n);
        graph_laws::lemma_confidences(e.edge_confidence@);
        if digest::call_from(q)(e) {
            assert(sub.drop_last() =~= kept);
            assert(sub.last() == e);
        } else {
            assert(sub == kept);
        }
        if found.contains(n) {
            let k = choose|k: int| 0 <= k < found.len() && found[k] == n;
            if k < init.len() {
                assert(init[k] == n);
                let j = choose|j: int|
                    0 <= j < less.len() && #[trigger] row_shows(less[j], q, known, n);
                assert(row_shows(all[j], q, known, n));
            } else {
                assert(row_shows(all[all.len() - 1], q, known, n));
            }
        }
        if shows_it(all, q, known, n) {
            let j = choose|j: int|
                0 <= j < all.len() && #[trigger] row_shows(all[j], q, known, n);
            if j < less.len() {
                assert(row_shows(less[j], q, known, n));
                let k = choose|k: int| 0 <= k < init.len() && init[k] == n;
                assert(found[k] == n);
            } else {
                assert(found[found.len() - 1] == n);
            }
        }
    } else {
        assert(sub =~= seq![]);
        assert(!found.contains(n));
    }
}

#[verifier::rlimit(40)]
proof fn lemma_known_calls(rows: Seq<EdgeRow>, a: Seq<char>, b: Seq<char>)
    ensures
        digest::calls(rows).contains((a, b)) <==> shows_it(rows, a, true, b),
    decreases rows.len(),
{
    let found = digest::calls(rows);
    if rows.len() > 0 {
        let less = rows.drop_last();
        let init = digest::calls(less);
        let e = rows.last();
        lemma_known_calls(less, a, b);
        graph_laws::lemma_confidences(e.edge_confidence@);
        if found.contains((a, b)) {
            let k = choose|k: int| 0 <= k < found.len() && found[k] == (a, b);
            if k < init.len() {
                assert(init[k] == (a, b));
                let j = choose|j: int|
                    0 <= j < less.len() && #[trigger] row_shows(less[j], a, true, b);
                assert(row_shows(rows[j], a, true, b));
            } else {
                assert(row_shows(rows[rows.len() - 1], a, true, b));
            }
        }
        if shows_it(rows, a, true, b) {
            let j = choose|j: int|
                0 <= j < rows.len() && #[trigger] row_shows(rows[j], a, true, b);
            if j < less.len() {
                assert(row_shows(less[j], a, true, b));
                let k = choose|k: int| 0 <= k < init.len() && init[k] == (a, b);
                assert(found[k] == (a, b));
            } else {
                assert(found[found.len() - 1] == (a, b));
            }
        }
    } else {
        assert(!found.contains((a, b)));
    }
}

/// `p` is a chain of known calls, each name calling the next, that starts and
/// ends with `q`.
pub open spec fn call_loop(rows: Seq<EdgeRow>, q: Seq<char>, p: Seq<Seq<char>>) -> bool {
    p.len() >= 2 && p[0] == q && p.last() == q && forall|i: int|
        0 <= i < p.len() - 1 ==> shows_it(rows, #[trigger] p[i], true, p[i + 1])
}

/// A symbol takes part in a cycle exactly where a chain of formal or resolved
/// calls leads from it back to it.
pub proof fn lemma_recursive(rows: Seq<EdgeRow>, q: Seq<char>)
    ensures
        digest::is_recursive(rows, q) <==> exists|p: Seq<Seq<char>>| #[trigger]
            call_loop(rows, q, p),
{
    let rel = digest::called_by(digest::calls(rows));
    if digest::is_recursive(rows, q) {
        let p = choose|p: Seq<Seq<char>>| p.len() >= 2 && cycles::leads(rel, p, q, q);
        assert forall|i: int| 0 <= i < p.len() - 1 implies shows_it(
            rows,
            #[trigger] p[i],
            true,
            p[i + 1],
        ) by {
            assert(rel(p[i], p[i + 1]));
            lemma_known_calls(rows, p[i], p[i + 1]);
        }
        assert(call_loop(rows, q, p));
    }
    if exists|p: Seq<Seq<char>>| #[trigger] call_loop(rows, q, p) {
        let p = choose|p: Seq<Seq<char>>| #[trigger] call_loop(rows, q, p);
        assert forall|i: int| 0 <= i < p.len() - 1 implies rel(#[trigger] p[i], p[i + 1]) by {
            lemma_known_calls(rows, p[i], p[i + 1]);
        }
        assert(cycles::leads(rel, p, q, q));
    }
}

proof fn lemma_callees(rows: Seq<EdgeRow>, q: Seq<char>, known: bool, n: Seq<char>)
    ensures
        digest::callees_of(rows, q, known).contains(n) <==> shows_it(rows, q, known, n),
        text::ascending(digest::callees_of(rows, q, known)),
{
    let found = digest::shown_targets(rows.filter(digest::call_from(q)), known);
    text::lemma_ordered(found);
    lemma_shown_targets(rows, q, known, n);
}

/// The callees that are listed are the first ones by name, at most `limit`, of
/// those that the rows show.
pub open spec fn lists_callees(
    listed: Seq<CalleeView>,
    rows: Seq<EdgeRow>,
    q: Seq<char>,
    known: bool,
    limit: nat,
) -> bool {
    &&& listed.len() <= limit
    &&& forall|i: int, j: int|
        0 <= i < j < listed.len() ==> text::before(
            (#[trigger] listed[i]).name,
            (#[trigger] listed[j]).name,
        )
    &&& forall|i: int|
        0 <= i < listed.len() ==> shows_it(rows, q, known, (#[trigger] listed[i]).name)
    &&& forall|n: Seq<char>| #[trigger]
        shows_it(rows, q, known, n) ==> (exists|i: int|
            0 <= i < listed.len() && (#[trigger] listed[i]).name == n) || (listed.len() == limit
            && forall|i: int|
            0 <= i < listed.len() ==> text::before((#[trigger] listed[i]).name, n))
}

proof fn lemma_lists_callees(
    symbols: Seq<DigestSymbol>,
    rows: Seq<EdgeRow>,
    q: Seq<char>,
    known: bool,
    limit: nat,
)
    ensures
        lists_callees(
            digest::with_tags(
                symbols,
                digest::first_of(digest::callees_of(rows, q, known), limit),
            ),
            rows,
            q,
            known,
            limit,
        ),
{
    let all = digest::callees_of(rows, q, known);
    let some = digest::first_of(all, limit);
    let listed = digest::with_tags(symbols, some);
    lemma_callees(rows, q, known, seq![]);
    assert(forall|i: int| 0 <= i < listed.len() ==> (#[trigger] listed[i]).name == all[i]);
    assert forall|i: int| 0 <= i < listed.len() implies shows_it(
        rows,
        q,
        known,
        (#[trigger] listed[i]).name,
    ) by {
        assert(all.contains(all[i]));
        lemma_callees(rows, q, known, all[i]);
    }
    assert forall|n: Seq<char>| #[trigger] shows_it(rows, q, known, n) implies (exists|i: int|
        0 <= i < listed.len() && (#[trigger] listed[i]).name == n) || (listed.len() == limit
        && forall|i: int|
        0 <= i < listed.len() ==> text::before((#[trigger] listed[i]).name, n)) by {
        lemma_callees(rows, q, known, n);
        let k = choose|k: int| 0 <= k < all.len() && all[k] == n;
        if k < listed.len() {
            assert(listed[k].name == n);
        }
    }
}

/// The callees of a digest are those of the rows: the known ones from formal and
/// resolved edges, the possible ones from inferred edges, each once and by name;
/// at most eight and five of them, and where one is left out, the digest is
/// marked as shortened.
pub proof fn lemma_digest_callees(
    symbols: Seq<DigestSymbol>,
    calls: Seq<EdgeRow>,
    relations: Seq<RelationRow>,
    effects: Seq<EffectRow>,
    s: DigestSymbol,
)
    ensures
        ({
            let f = digest::facts_of(symbols, calls, relations, effects, s);
            let q = s.qualified_name@;
            &&& lists_callees(f.confirmed_callees, calls, q, true, 8)
            &&& lists_callees(f.possible_callees, calls, q, false, 5)
            &&& forall|n: Seq<char>| #[trigger]
                shows_it(calls, q, true, n) ==> f.truncated || exists|i: int|
                    0 <= i < f.confirmed_callees.len() && (#[trigger] f.confirmed_callees[i]).name
                        == n
            &&& forall|n: Seq<char>| #[trigger]
                shows_it(calls, q, false, n) ==> f.truncated || exists|i: int|
                    0 <= i < f.possible_callees.len() && (#[trigger] f.possible_callees[i]).name
                        == n
        }),
{
    let f = digest::facts_of(symbols, calls, relations, effects, s);
    let q = s.qualified_name@;
    lemma_lists_callees(symbols, calls, q, true, 8);
    lemma_lists_callees(symbols, calls, q, false, 5);
    assert forall|n: Seq<char>| #[trigger] shows_it(calls, q, true, n) implies f.truncated
        || exists|i: int|
        0 <= i < f.confirmed_callees.len() && (#[trigger] f.confirmed_callees[i]).name == n by {
        let all = digest::callees_of(calls, q, true);
        lemma_callees(calls, q, true, n);
        let k = choose|k: int| 0 <= k < all.len() && all[k] == n;
        if all.len() <= 8 {
            assert(f.confirmed_callees[k].name == n);
        }
    }
    assert forall|n: Seq<char>| #[trigger] shows_it(calls, q, false, n) implies f.truncated
        || exists|i: int|
        0 <= i < f.possible_callees.len() && (#[trigger] f.possible_callees[i]).name == n by {
        let all = digest::callees_of(calls, q, false);
        lemma_callees(calls, q, false, n);
        let k = choose|k: int| 0 <= k < all.len() && all[k] == n;
        if all.len() <= 5 {
            assert(f.possible_callees[k].name == n);
        }
    }
}

/// The row is a relation of `q`, of that kind and to that target.
pub open spec fn relates(r: RelationRow, q: Seq<char>, l: digest::Labelled) -> bool {
    r.from_symbol@ == q && l.0 == r.relation_kind@ && l.1 == r.target_text@
}

pub open spec fn has_relation(rows: Seq<RelationRow>, q: Seq<char>, l: digest::Labelled) -> bool {
    exists|i: int| 0 <= i < rows.len() && relates(#[trigger] rows[i], q, l)
}

/// The row is an effect of `q`, of that kind and on that target.
pub open spec fn does(e: EffectRow, q: Seq<char>, l: digest::Labelled) -> bool {
    e.symbol_qn@ == q && l.0 == e.effect_kind@ && l.1 == e.target_text@
}

pub open spec fn has_effect(rows: Seq<EffectRow>, q: Seq<char>, l: digest::Labelled) -> bool {
    exists|i: int| 0 <= i < rows.len() && does(#[trigger] rows[i], q, l)
}

/// The other facts of a digest: what the symbol's own row says, with a
/// complexity of one where none is stored; every type relation of the symbol;
/// at most eight of its effects.
#[verifier::rlimit(40)]
pub proof fn lemma_digest_facts(
    symbols: Seq<DigestSymbol>,
    calls: Seq<EdgeRow>,
    relations: Seq<RelationRow>,
    effects: Seq<EffectRow>,
    s: DigestSymbol,
)
    ensures
        ({
            let f = digest::facts_of(symbols, calls, relations, effects, s);
            let q = s.qualified_name@;
            &&& f.name == s.name@ && f.kind == s.kind@
            &&& s.signature matches Some(x) ==> f.signature == x@
            &&& s.signature is None ==> f.signature.len() == 0
            &&& s.complexity matches Some(c) ==> f.complexity == c
            &&& s.complexity is None ==> f.complexity == 1
            &&& f.recursive_component <==> exists|p: Seq<Seq<char>>| #[trigger]
                call_loop(calls, q, p)
            &&& forall|i: int|
                0 <= i < relations.len() && (#[trigger] relations[i]).from_symbol@ == q
                    ==> f.type_relations.contains(
                    (relations[i].relation_kind@, relations[i].target_text@),
                )
            &&& forall|j: int|
                0 <= j < f.type_relations.len() ==> has_relation(
                    relations,
                    q,
                    #[trigger] f.type_relations[j],
                )
            &&& f.effects.len() <= 8
            &&& forall|i: int|
                0 <= i < effects.len() && (#[trigger] effects[i]).symbol_qn@ == q
                    ==> f.effects.contains((effects[i].effect_kind@, effects[i].target_text@)) || (
                f.effects.len() == 8 && f.truncated)
            &&& forall|j: int|
                0 <= j < f.effects.len() ==> has_effect(effects, q, #[trigger] f.effects[j])
        }),
{
    let f = digest::facts_of(symbols, calls, relations, effects, s);
    let q = s.qualified_name@;
    lemma_recursive(calls, q);
    let some = relations.filter(digest::relation_from(q));
    assert forall|i: int|
        0 <= i < relations.len() && (#[trigger] relations[i]).from_symbol@
            == q implies f.type_relations.contains(
        (relations[i].relation_kind@, relations[i].target_text@),
    ) by {
        relations.lemma_filter_contains(digest::relation_from(q), i);
        let k = choose|k: int| 0 <= k < some.len() && some[k] == relations[i];
        assert(f.type_relations[k] == (relations[i].relation_kind@, relations[i].target_text@));
    }
    assert forall|j: int| 0 <= j < f.type_relations.len() implies has_relation(
        relations,
        q,
        #[trigger] f.type_relations[j],
    ) by {
        relations.lemma_filter_pred(digest::relation_from(q), j);
        assert(some.contains(some[j]));
        relations.lemma_filter_contains_rev(digest::relation_from(q), some[j]);
        let i = choose|i: int| 0 <= i < relations.len() && relations[i] == some[j];
        assert(relates(relations[i], q, f.type_relations[j]));
    }
    let did = effects.filter(digest::effect_from(q));
    assert(forall|j: int|
        0 <= j < f.effects.len() ==> #[trigger] f.effects[j] == (
            did[j].effect_kind@,
            did[j].target_text@,
        ));
    assert forall|i: int|
        0 <= i < effects.len() && (#[trigger] effects[i]).symbol_qn@ == q implies f.effects.contains(
        (effects[i].effect_kind@, effects[i].target_text@),
    ) || (f.effects.len() == 8 && f.truncated) by {
        effects.lemma_filter_contains(digest::effect_from(q), i);
        let k = choose|k: int| 0 <= k < did.len() && did[k] == effects[i];
        if did.len() <= 8 {
            assert(f.effects[k] == (effects[i].effect_kind@, effects[i].target_text@));
        }
    }
    assert forall|j: int| 0 <= j < f.effects.len() implies has_effect(
        effects,
        q,
        #[trigger] f.effects[j],
    ) by {
        effects.lemma_filter_pred(digest::effect_from(q), j);
        assert(did.contains(did[j]));
        effects.lemma_filter_contains_rev(digest::effect_from(q), did[j]);
        let i = choose|i: int| 0 <= i < effects.len() && effects[i] == did[j];
        assert(does(effects[i], q, f.effects[j]));
    }
}

/// The tags of a callee are the first two words of its tokens at most, and it
/// has none where no symbol bears its name.
pub proof fn lemma_digest_tags(symbols: Seq<DigestSymbol>, q: Seq<char>)
    ensures
        digest::tags_of(symbols, q).len() <= 2,
        (forall|i: int| 0 <= i < symbols.len() ==> (#[trigger] symbols[i]).qualified_name@ != q)
            ==> digest::tags_of(symbols, q).len() == 0,
        forall|i: int, t: String|
            0 <= i < symbols.len() && (#[trigger] symbols[i]).qualified_name@ == q
                && symbols[i].name_tokens == Some(t) && (forall|j: int|
                i < j < symbols.len() ==> (#[trigger] symbols[j]).qualified_name@ != q) ==> {
                let w = #[trigger] text::words_of(t@);
                let tags = digest::tags_of(symbols, q);
                &&& w.len() <= 2 ==> tags == w
                &&& w.len() > 2 ==> tags == seq![w[0], w[1]]
            },
{
    let p = digest::symbol_is(q);
    let hits = symbols.filter(p);
    if forall|i: int| 0 <= i < symbols.len() ==> (#[trigger] symbols[i]).qualified_name@ != q {
        if hits.len() > 0 {
            symbols.lemma_filter_pred(p, 0);
            assert(hits.contains(hits[0]));
            symbols.lemma_filter_contains_rev(p, hits[0]);
        }
    }
    assert forall|i: int, t: String|
        0 <= i < symbols.len() && (#[trigger] symbols[i]).qualified_name@ == q
            && symbols[i].name_tokens == Some(t) && (forall|j: int|
            i < j < symbols.len() ==> (#[trigger] symbols[j]).qualified_name@ != q) implies {
        let w = #[trigger] text::words_of(t@);
        let tags = digest::tags_of(symbols, q);
        &&& w.len() <= 2 ==> tags == w
        &&& w.len() > 2 ==> tags == seq![w[0], w[1]]
    } by {
        lemma_last_hit(symbols, q, i);
        let w = text::words_of(t@);
        if w.len() > 2 {
            assert(w.take(2) =~= seq![w[0], w[1]]);
        }
    }
}

proof fn lemma_last_hit(symbols: Seq<DigestSymbol>, q: Seq<char>, i: int)
    requires
        0 <= i < symbols.len(),
        symbols[i].qualified_name@ == q,
        forall|j: int| i < j < symbols.len() ==> (#[trigger] symbols[j]).qualified_name@ != q,
    ensures
        symbols.filter(digest::symbol_is(q)).len() > 0,
        symbols.filter(digest::symbol_is(q)).last() == symbols[i],
    decreases symbols.len(),
{
    reveal(Seq::filter);
    if i < symbols.len() - 1 {
        let less = symbols.drop_last();
        assert(symbols[symbols.len() - 1].qualified_name@ != q);
        assert(forall|j: int| i < j < less.len() ==> (#[trigger] less[j]) == symbols[j]);
        lemma_last_hit(less, q, i);
    }
}

/// Every function, method, class, struct, trait, interface and constructor has a
/// digest, with its facts and their text.
pub proof fn lemma_digest_of(
    symbols: Seq<DigestSymbol>,
    calls: Seq<EdgeRow>,
    relations: Seq<RelationRow>,
    effects: Seq<EffectRow>,
    n: nat,
    i: int,
) -> (k: int)
    requires
        0 <= i < n <= symbols.len(),
        summarized(symbols[i].kind@),
    ensures
        0 <= k < digest::digests_of(symbols, calls, relations, effects, n).len(),
        digest_for(
            digest::digests_of(symbols, calls, relations, effects, n)[k],
            symbols[i],
            digest::facts_of(symbols, calls, relations, effects, symbols[i]),
        ),
    decreases n,
{
    let m = (n - 1) as nat;
    let init = digest::digests_of(symbols, calls, relations, effects, m);
    if i == m {
        init.len() as int
    } else {
        let k = lemma_digest_of(symbols, calls, relations, effects, m, i);
        assert(digest::digests_of(symbols, calls, relations, effects, n)[k] == init[k]);
        k
    }
}

/// No symbol of another kind has a digest.
pub proof fn lemma_digest_from(
    symbols: Seq<DigestSymbol>,
    calls: Seq<EdgeRow>,
    relations: Seq<RelationRow>,
    effects: Seq<EffectRow>,
    n: nat,
    k: int,
) -> (i: int)
    requires
        n <= symbols.len(),
        0 <= k < digest::digests_of(symbols, calls, relations, effects, n).len(),
    ensures
        0 <= i < n,
        summarized(symbols[i].kind@),
        digest_for(
            digest::digests_of(symbols, calls, relations, effects, n)[k],
            symbols[i],
            digest::facts_of(symbols, calls, relations, effects, symbols[i]),
        ),
    decreases n,
{
    let m = (n - 1) as nat;
    let init = digest::digests_of(symbols, calls, relations, effects, m);
    if k < init.len() {
        let i = lemma_digest_from(symbols, calls, relations, effects, m, k);
        assert(digest::digests_of(symbols, calls, relations, effects, n)[k] == init[k]);
        i
    } else {
        n - 1
    }
}

/// The kinds that have a digest.
pub open spec fn summarized(kind: Seq<char>) -> bool {
    kind == "function"@ || kind == "method"@ || kind == "constructor"@ || kind == "class"@ || kind
        == "struct"@ || kind == "trait"@ || kind == "interface"@
}

/// The digest is that of the symbol, with its facts and the text of them.
pub open spec fn digest_for(
    d: (Seq<char>, DigestView, Seq<char>),
    s: DigestSymbol,
    f: DigestView,
) -> bool {
    d.0 == s.qualified_name@ && d.1 == f && d.2 == digest::rendering(f)
}

/// A number is written with its decimal digits, the last of them the remainder
/// by ten.
pub proof fn lemma_decimal(n: nat)
    ensures
        text::decimal(n).len() >= 1,
        text::decimal(n).last() as int == '0' as int + n % 10,
        n < 10 ==> text::decimal(n).len() == 1,
        n >= 10 ==> text::decimal(n).drop_last() == text::decimal(n / 10),
{
    if n >= 10 {
        assert(text::decimal(n).drop_last() =~= text::decimal(n / 10));
    }
}

} // verus!
