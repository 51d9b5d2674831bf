//! The identity of call sites: what makes two of them the same one, which
//! stored ones survive when a file is read again, and when all of them have to
//! be read anew.

use crate::extraction;
use crate::extraction::{CallSiteData, CallSiteView, RawCall, RawImport};
use crate::names;
use crate::names::KeyIndex;
use crate::naming::ParsedSymbol;
use crate::text;
use vstd::prelude::*;

verus! {

// ---------------------------------------------------------------------------
// Identity
// ---------------------------------------------------------------------------

/// What tells one call site of a file from another.
pub struct SiteIdentity {
    pub enclosing_qn: Seq<char>,
    /// Relative to the enclosing symbol where that is known.
    pub span: Option<(i64, i64)>,
    pub edge_kind: Seq<char>,
    pub version: int,
}

/// A span, where both of its ends are known.
pub open spec fn whole(start: Option<i64>, end: Option<i64>) -> Option<(i64, i64)> {
    match (start, end) {
        (Some(a), Some(b)) => Some((a, b)),
        _ => None,
    }
}

/// The identity of a call site. From version 3 on it does not depend on where
/// in the file the enclosing symbol stands.
pub open spec fn identity_of(s: CallSiteView) -> SiteIdentity {
    SiteIdentity {
        enclosing_qn: s.enclosing_qn,
        span: if s.identity_version >= 3 {
            whole(s.callee_start_rel, s.callee_end_rel)
        } else {
            whole(s.callee_start_byte, s.callee_end_byte)
        },
        edge_kind: s.edge_kind,
        version: s.identity_version,
    }
}

/// Do two call sites have the same identity? One without a span has none.
pub open spec fn same_identity(a: SiteIdentity, b: SiteIdentity) -> bool {
    a.span is Some && a == b
}

/// One stored call site, as far as its identity goes.
pub struct StoredSite {
    pub id: i64,
    pub enclosing_qn: String,
    pub callee_start_byte: Option<i64>,
    pub callee_end_byte: Option<i64>,
    pub callee_start_rel: Option<i64>,
    pub callee_end_rel: Option<i64>,
    pub identity_version: i64,
    pub edge_kind: String,
}

/// The identity of a stored call site.
pub open spec fn stored_identity(s: StoredSite) -> SiteIdentity {
    SiteIdentity {
        enclosing_qn: s.enclosing_qn@,
        span: if s.identity_version >= 3 {
            whole(s.callee_start_rel, s.callee_end_rel)
        } else {
            whole(s.callee_start_byte, s.callee_end_byte)
        },
        edge_kind: s.edge_kind@,
        version: s.identity_version as int,
    }
}

pub open spec fn identities(v: Seq<CallSiteData>) -> Seq<SiteIdentity> {
    v.map_values(|s: CallSiteData| identity_of(s@))
}

pub open spec fn stored_identities(v: Seq<StoredSite>) -> Seq<SiteIdentity> {
    v.map_values(|s: StoredSite| stored_identity(s))
}

fn whole_span(start: Option<i64>, end: Option<i64>) -> (r: Option<(i64, i64)>)
    ensures
        r == whole(start, end),
{
    match (start, end) {
        (Some(a), Some(b)) => Some((a, b)),
        _ => None,
    }
}

/// An identity at work.
struct Key<'a> {
    enclosing_qn: &'a str,
    span: Option<(i64, i64)>,
    edge_kind: &'a str,
    version: i64,
}

impl<'a> Key<'a> {
    spec fn view(&self) -> SiteIdentity {
        SiteIdentity {
            enclosing_qn: self.enclosing_qn@,
            span: self.span,
            edge_kind: self.edge_kind@,
            version: self.version as int,
        }
    }

    fn of_site(s: &'a CallSiteData) -> (r: Self)
        ensures
            r@ == identity_of(s@),
    {
        let span = if s.identity_version >= 3 {
            whole_span(s.callee_start_rel, s.callee_end_rel)
        } else {
            whole_span(s.callee_start_byte, s.callee_end_byte)
        };
        Key {
            enclosing_qn: s.enclosing_qn.as_str(),
            span,
            edge_kind: s.edge_kind.as_str(),
            version: s.identity_version,
        }
    }

    fn of_stored(s: &'a StoredSite) -> (r: Self)
        ensures
            r@ == stored_identity(*s),
    {
        let span = if s.identity_version >= 3 {
            whole_span(s.callee_start_rel, s.callee_end_rel)
        } else {
            whole_span(s.callee_start_byte, s.callee_end_byte)
        };
        Key {
            enclosing_qn: s.enclosing_qn.as_str(),
            span,
            edge_kind: s.edge_kind.as_str(),
            version: s.identity_version,
        }
    }

    fn same(&self, other: &Key) -> (r: bool)
        ensures
            r == same_identity(self@, other@),
    {
        let spans = match (self.span, other.span) {
            (Some(a), Some(b)) => a.0 == b.0 && a.1 == b.1,
            _ => false,
        };
        spans && self.version == other.version && text::str_eq(
            self.enclosing_qn,
            other.enclosing_qn,
        ) && text::str_eq(self.edge_kind, other.edge_kind)
    }
}

// ---------------------------------------------------------------------------
// One of each
// ---------------------------------------------------------------------------

/// Does an earlier entry have the identity of entry `i`?
pub open spec fn repeats(v: Seq<SiteIdentity>, i: int) -> bool {
    exists|j: int| 0 <= j < i && #[trigger] same_identity(v[j], v[i])
}

/// The positions of the entries that repeat no earlier one, ascending.
pub open spec fn first_sites(v: Seq<SiteIdentity>, n: nat) -> Seq<int>
    decreases n,
{
    if n == 0 || n > v.len() {
        seq![]
    } else if repeats(v, n - 1) {
        first_sites(v, (n - 1) as nat)
    } else {
        first_sites(v, (n - 1) as nat).push(n - 1)
    }
}

/// The sites of a file that are stored: of several with one identity, the
/// first.
pub fn distinct_sites(sites: &Vec<CallSiteData>) -> (r: Vec<usize>)
    ensures
        names::at(r@) == first_sites(identities(sites@), sites@.len()),
        names::within(r@, sites@.len()),
{
    let ghost v = identities(sites@);
    let mut seen = KeyIndex::new();
    let mut out: Vec<usize> = Vec::new();
    let mut i: usize = 0;
    assert(names::at(out@) =~= seq![]);
    while i < sites.len()
        invariant
            i <= sites@.len(),
            v == identities(sites@),
            seen.wf(),
            seen@.len() == i,
            forall|k: int| 0 <= k < i ==> #[trigger] seen@[k] == v[k].enclosing_qn,
            names::at(out@) == first_sites(v, i as nat),
            names::within(out@, sites@.len()),
        decreases sites@.len() - i,
    {
        let key = Key::of_site(&sites[i]);
        let q = key.enclosing_qn;
        let hits = seen.get(q);
        let mut repeated = false;
        let mut h: usize = 0;
        while h < hits.len()
            invariant
                h <= hits@.len(),
                i < sites@.len(),
                v == identities(sites@),
                key@ == v[i as int],
                names::within(hits@, i as nat),
                repeated == exists|k: int|
                    0 <= k < h && same_identity(v[(#[trigger] hits@[k]) as int], v[i as int]),
            decreases hits@.len() - h,
        {
            let ghost was = repeated;
            let other = Key::of_site(&sites[hits[h]]);
            if other.same(&key) {
                repeated = true;
                assert(same_identity(v[hits@[h as int] as int], v[i as int]));
            }
            proof {
                if was {
                    let k = choose|k: int|
                        0 <= k < h && same_identity(v[(#[trigger] hits@[k]) as int], v[i as int]);
                    assert(same_identity(v[hits@[k] as int], v[i as int]));
                }
            }
            h += 1;
        }
        proof {
            if repeated {
                let k = choose|k: int|
                    0 <= k < hits@.len() && same_identity(
                        v[(#[trigger] hits@[k]) as int],
                        v[i as int],
                    );
                assert(same_identity(v[hits@[k] as int], v[i as int]));
            }
            if repeats(v, i as int) {
                let j = choose|j: int| 0 <= j < i && #[trigger] same_identity(v[j], v[i as int]);
                assert(seen@[j] == q@);
                names::lemma_position_of(seen@, q@, j);
                let k = choose|k: int|
                    0 <= k < names::positions(seen@, q@).len() && names::positions(
                        seen@,
                        q@,
                    )[k] == j;
                assert(names::at(hits@)[k] == hits@[k]);
                assert(hits@[k] as int == j);
            }
            assert(repeated == repeats(v, i as int));
        }
        let ghost before = out@;
        if !repeated {
            out.push(i);
            assert(names::at(out@) =~= names::at(before).push(i as int));
        }
        seen.push(q, i);
        i += 1;
    }
    out
}

proof fn lemma_first_sites(v: Seq<SiteIdentity>, n: nat, i: int)
    requires
        n <= v.len(),
        0 <= i,
    ensures
        first_sites(v, n).contains(i) <==> i < n && !repeats(v, i),
    decreases n,
{
    if n > 0 {
        lemma_first_sites(v, (n - 1) as nat, i);
        let a = first_sites(v, (n - 1) as nat);
        let b = first_sites(v, n);
        if !repeats(v, n - 1) {
            assert(b == a.push(n - 1));
            if a.contains(i) {
                let k = choose|k: int| 0 <= k < a.len() && a[k] == i;
                assert(b[k] == i);
            }
            assert(b[a.len() as int] == n - 1);
            if b.contains(i) && i != n - 1 {
                let k = choose|k: int| 0 <= k < b.len() && b[k] == i;
                assert(a[k] == i);
            }
        }
    }
}

/// A call site is stored, or one before it with the same identity is.
pub proof fn lemma_site_kept(v: Seq<SiteIdentity>, i: int)
    requires
        0 <= i < v.len(),
    ensures
        first_sites(v, v.len()).contains(i) || exists|j: int|
            0 <= j < i && #[trigger] same_identity(v[j], v[i]) && first_sites(
                v,
                v.len(),
            ).contains(j),
    decreases i,
{
    lemma_first_sites(v, v.len(), i);
    if repeats(v, i) {
        let j = choose|j: int| 0 <= j < i && #[trigger] same_identity(v[j], v[i]);
        lemma_first_sites(v, v.len(), j);
        lemma_site_kept(v, j);
        if !first_sites(v, v.len()).contains(j) {
            let k = choose|k: int|
                0 <= k < j && #[trigger] same_identity(v[k], v[j]) && first_sites(
                    v,
                    v.len(),
                ).contains(k);
            assert(same_identity(v[k], v[i]));
        }
    }
}

/// No two stored sites have the same identity.
pub proof fn lemma_stored_sites_distinct(v: Seq<SiteIdentity>, a: int, b: int)
    requires
        0 <= a < b < v.len(),
        first_sites(v, v.len()).contains(a),
        first_sites(v, v.len()).contains(b),
    ensures
        !same_identity(v[a], v[b]),
{
    lemma_first_sites(v, v.len(), b);
}

// ---------------------------------------------------------------------------
// Reading a file again
// ---------------------------------------------------------------------------

/// The first stored site, from `from` on, with this identity.
pub open spec fn match_from(stored: Seq<SiteIdentity>, key: SiteIdentity, from: int) -> Option<int>
    decreases stored.len() - from,
{
    if from < 0 || from >= stored.len() {
        None
    } else if same_identity(stored[from], key) {
        Some(from)
    } else {
        match_from(stored, key, from + 1)
    }
}

/// What happens to one call site that was read.
pub enum SiteStep {
    /// The stored site with this id is the same one: it keeps its id and takes
    /// the new row's contents.
    Update { id: i64, fresh: usize },
    /// There was no such site.
    Insert { fresh: usize },
}

/// What happens to a file's call sites when it is read again.
pub struct SitePlan {
    pub steps: Vec<SiteStep>,
    /// Stored sites that are gone.
    pub deletes: Vec<i64>,
}

/// The step for the site at position `i`.
pub open spec fn step_for(stored: Seq<StoredSite>, fresh: Seq<SiteIdentity>, i: int) -> SiteStep {
    match match_from(stored_identities(stored), fresh[i], 0) {
        Some(j) => SiteStep::Update { id: stored[j].id, fresh: i as usize },
        None => SiteStep::Insert { fresh: i as usize },
    }
}

/// The steps for the sites at some positions, in order.
pub open spec fn steps_for(
    stored: Seq<StoredSite>,
    fresh: Seq<SiteIdentity>,
    at: Seq<int>,
) -> Seq<SiteStep> {
    at.map_values(|i: int| step_for(stored, fresh, i))
}

/// Is the stored site `j` the one that some site that was read matches?
pub open spec fn survives(stored: Seq<SiteIdentity>, fresh: Seq<SiteIdentity>, j: int) -> bool {
    exists|i: int|
        0 <= i < fresh.len() && #[trigger] match_from(stored, fresh[i], 0) == Some(j)
}

/// The ids of the first `n` stored sites that do not survive.
pub open spec fn gone(stored: Seq<StoredSite>, fresh: Seq<SiteIdentity>, n: nat) -> Seq<i64>
    decreases n,
{
    if n == 0 || n > stored.len() {
        seq![]
    } else {
        let init = gone(stored, fresh, (n - 1) as nat);
        if survives(stored_identities(stored), fresh, n - 1) {
            init
        } else {
            init.push(stored[n - 1].id)
        }
    }
}

proof fn lemma_match_from(stored: Seq<SiteIdentity>, key: SiteIdentity, from: int)
    requires
        0 <= from <= stored.len(),
    ensures
        match match_from(stored, key, from) {
            Some(j) => from <= j < stored.len() && same_identity(stored[j], key) && forall|k: int|
                from <= k < j ==> !same_identity(#[trigger] stored[k], key),
            None => forall|k: int|
                from <= k < stored.len() ==> !same_identity(#[trigger] stored[k], key),
        },
    decreases stored.len() - from,
{
    if from < stored.len() && !same_identity(stored[from], key) {
        lemma_match_from(stored, key, from + 1);
    }
}

struct StoredIndex<'a> {
    stored: &'a Vec<StoredSite>,
    keys: KeyIndex,
}

impl<'a> StoredIndex<'a> {
    spec fn wf(&self) -> bool {
        &&& self.keys.wf()
        &&& self.keys@.len() == self.stored@.len()
        &&& forall|k: int|
            0 <= k < self.keys@.len() ==> #[trigger] self.keys@[k]
                == self.stored@[k].enclosing_qn@
    }

    fn new(stored: &'a Vec<StoredSite>) -> (r: Self)
        ensures
            r.wf(),
            r.stored@ == stored@,
    {
        let mut keys = KeyIndex::new();
        let mut i: usize = 0;
        while i < stored.len()
            invariant
                i <= stored@.len(),
                keys.wf(),
                keys@.len() == i,
                forall|k: int| 0 <= k < i ==> #[trigger] keys@[k] == stored@[k].enclosing_qn@,
            decreases stored@.len() - i,
        {
            keys.push(stored[i].enclosing_qn.as_str(), i);
            i += 1;
        }
        StoredIndex { stored, keys }
    }

    fn find(&self, key: &Key) -> (r: Option<usize>)
        requires
            self.wf(),
        ensures
            match r {
                Some(j) => j < self.stored@.len() && match_from(
                    stored_identities(self.stored@),
                    key@,
                    0,
                ) == Some(j as int),
                None => match_from(stored_identities(self.stored@), key@, 0) is None,
            },
    {
        let hits = self.keys.get(key.enclosing_qn);
        let ghost v = stored_identities(self.stored@);
        let ghost q = key.enclosing_qn@;
        proof {
            lemma_match_from(v, key@, 0);
        }
        let mut h: usize = 0;
        while h < hits.len()
            invariant
                h <= hits@.len(),
                self.wf(),
                v == stored_identities(self.stored@),
                q == key.enclosing_qn@,
                names::at(hits@) == names::positions(self.keys@, q),
                names::within(hits@, self.stored@.len()),
                forall|k: int|
                    0 <= k < h ==> !same_identity(v[(#[trigger] hits@[k]) as int], key@),
            decreases hits@.len() - h,
        {
            let j = hits[h];
            let other = Key::of_stored(&self.stored[j]);
            assert(v[j as int] == other@);
            if other.same(key) {
                proof {
                    lemma_match_from(v, key@, 0);
                    let m = match_from(v, key@, 0)->Some_0;
                    if m != j {
                        assert(self.keys@[m] == q);
                        names::lemma_position_of(self.keys@, q, m);
                        let p = names::positions(self.keys@, q);
                        let k = choose|k: int| 0 <= k < p.len() && p[k] == m;
                        lemma_positions_ascend(self.keys@, q);
                        assert(names::at(hits@)[k] == hits@[k]);
                        assert(names::at(hits@)[h as int] == hits@[h as int]);
                        if k < h {
                            assert(!same_identity(v[hits@[k] as int], key@));
                        } else if k > h {
                            assert(p[h as int] < p[k]);
                        }
                    }
                }
                return Some(j);
            }
            h += 1;
        }
        proof {
            if match_from(v, key@, 0) is Some {
                let m = match_from(v, key@, 0)->Some_0;
                assert(self.keys@[m] == q);
                names::lemma_position_of(self.keys@, q, m);
                let p = names::positions(self.keys@, q);
                let k = choose|k: int| 0 <= k < p.len() && p[k] == m;
                assert(names::at(hits@)[k] == hits@[k]);
                assert(!same_identity(v[hits@[k] as int], key@));
            }
        }
        None
    }
}

proof fn lemma_positions_ascend(keys: Seq<Seq<char>>, k: Seq<char>)
    ensures
        forall|i: int, j: int|
            0 <= i < j < names::positions(keys, k).len() ==> #[trigger] names::positions(keys, k)[i]
                < #[trigger] names::positions(keys, k)[j],
    decreases keys.len(),
{
    if keys.len() > 0 {
        lemma_positions_ascend(keys.drop_last(), k);
        names::lemma_positions_within(keys.drop_last(), k);
        let a = names::positions(keys.drop_last(), k);
        let b = names::positions(keys, k);
        assert forall|i: int, j: int| 0 <= i < j < b.len() implies #[trigger] b[i]
            < #[trigger] b[j] by {
            assert(b[i] == a[i]);
            if j < a.len() {
                assert(b[j] == a[j]);
            }
        }
    }
}

/// What happens to a file's stored call sites when `fresh` was read from it: a
/// site with a known identity keeps its id, a new one is added, and one that
/// was not read again goes.
pub fn reconcile_sites(stored: &Vec<StoredSite>, fresh: &Vec<CallSiteData>) -> (r: SitePlan)
    ensures
        r.steps@ == steps_for(
            stored@,
            identities(fresh@),
            first_sites(identities(fresh@), fresh@.len()),
        ),
        r.deletes@ == gone(stored@, identities(fresh@), stored@.len()),
{
    let index = StoredIndex::new(stored);
    let keep = distinct_sites(fresh);
    let ghost v = identities(fresh@);
    let ghost w = stored_identities(stored@);
    let ghost at = first_sites(v, fresh@.len());
    let mut steps: Vec<SiteStep> = Vec::new();
    let mut i: usize = 0;
    while i < keep.len()
        invariant
            i <= keep@.len(),
            index.wf(),
            index.stored@ == stored@,
            v == identities(fresh@),
            w == stored_identities(stored@),
            at == names::at(keep@),
            names::within(keep@, fresh@.len()),
            steps@ =~= steps_for(stored@, v, at).take(i as int),
        decreases keep@.len() - i,
    {
        let f = keep[i];
        let key = Key::of_site(&fresh[f]);
        assert(at[i as int] == f);
        assert(key@ == v[f as int]);
        let step = match index.find(&key) {
            Some(j) => SiteStep::Update { id: stored[j].id, fresh: f },
            None => SiteStep::Insert { fresh: f },
        };
        assert(steps_for(stored@, v, at)[i as int] == step);
        steps.push(step);
        i += 1;
    }
    assert(steps@ =~= steps_for(stored@, v, at));
    let mut alive: Vec<bool> = Vec::new();
    let mut k: usize = 0;
    while k < stored.len()
        invariant
            k <= stored@.len(),
            alive@.len() == k,
            forall|j: int| 0 <= j < k ==> !#[trigger] alive@[j],
        decreases stored@.len() - k,
    {
        alive.push(false);
        k += 1;
    }
    let mut n: usize = 0;
    while n < fresh.len()
        invariant
            n <= fresh@.len(),
            index.wf(),
            index.stored@ == stored@,
            v == identities(fresh@),
            w == stored_identities(stored@),
            alive@.len() == stored@.len(),
            forall|j: int|
                0 <= j < stored@.len() ==> (#[trigger] alive@[j] <==> matched_before(
                    w,
                    v,
                    n as int,
                    j,
                )),
        decreases fresh@.len() - n,
    {
        let key = Key::of_site(&fresh[n]);
        assert(key@ == v[n as int]);
        let ghost before = alive@;
        let hit = index.find(&key);
        if let Some(j) = hit {
            alive.set(j, true);
        }
        proof {
            assert forall|j: int| 0 <= j < stored@.len() implies (#[trigger] alive@[j]
                <==> matched_before(w, v, n + 1, j)) by {
                if matched_before(w, v, n as int, j) {
                    let i = choose|i: int|
                        0 <= i < n && #[trigger] match_from(w, v[i], 0) == Some(j);
                    assert(match_from(w, v[i], 0) == Some(j));
                }
                if hit is Some && hit->Some_0 == j {
                    assert(match_from(w, v[n as int], 0) == Some(j));
                }
                if matched_before(w, v, n + 1, j) {
                    let i = choose|i: int|
                        0 <= i < n + 1 && #[trigger] match_from(w, v[i], 0) == Some(j);
                    if i < n {
                        assert(matched_before(w, v, n as int, j));
                    }
                }
            }
        }
        n += 1;
    }
    let mut deletes: Vec<i64> = Vec::new();
    let mut m: usize = 0;
    while m < stored.len()
        invariant
            m <= stored@.len(),
            v == identities(fresh@),
            w == stored_identities(stored@),
            alive@.len() == stored@.len(),
            forall|j: int|
                0 <= j < stored@.len() ==> (#[trigger] alive@[j] <==> matched_before(
                    w,
                    v,
                    fresh@.len() as int,
                    j,
                )),
            deletes@ == gone(stored@, v, m as nat),
        decreases stored@.len() - m,
    {
        proof {
            assert(alive@[m as int] <==> survives(w, v, m as int)) by {
                if survives(w, v, m as int) {
                    let i = choose|i: int|
                        0 <= i < v.len() && #[trigger] match_from(w, v[i], 0) == Some(m as int);
                    assert(match_from(w, v[i], 0) == Some(m as int));
                }
                if matched_before(w, v, fresh@.len() as int, m as int) {
                    let i = choose|i: int|
                        0 <= i < v.len() && #[trigger] match_from(w, v[i], 0) == Some(m as int);
                    assert(match_from(w, v[i], 0) == Some(m as int));
                }
            }
        }
        if !alive[m] {
            deletes.push(stored[m].id);
        }
        m += 1;
    }
    SitePlan { steps, deletes }
}

spec fn matched_before(
    stored: Seq<SiteIdentity>,
    fresh: Seq<SiteIdentity>,
    n: int,
    j: int,
) -> bool {
    exists|i: int| 0 <= i < n && #[trigger] match_from(stored, fresh[i], 0) == Some(j)
}

/// A stored site whose identity was read again keeps its id, wherever its
/// enclosing symbol has moved: the step for it is an update, and it is not
/// deleted.
pub proof fn lemma_known_site_keeps_its_id(
    stored: Seq<StoredSite>,
    fresh: Seq<SiteIdentity>,
    j: int,
    i: int,
)
    requires
        0 <= j < stored.len(),
        0 <= i < fresh.len(),
        same_identity(stored_identity(stored[j]), fresh[i]),
        forall|k: int|
            0 <= k < stored.len() && k != j ==> !same_identity(
                stored_identity(#[trigger] stored[k]),
                stored_identity(stored[j]),
            ),
    ensures
        step_for(stored, fresh, i) == (SiteStep::Update { id: stored[j].id, fresh: i as usize }),
        survives(stored_identities(stored), fresh, j),
{
    let v = stored_identities(stored);
    lemma_match_from(v, fresh[i], 0);
    assert(v[j] == stored_identity(stored[j]));
    let m = match_from(v, fresh[i], 0)->Some_0;
    assert(v[m] == stored_identity(stored[m]));
    assert(m == j);
    assert(match_from(v, fresh[i], 0) == Some(j));
}

/// A call in a symbol that moved as a whole is still the same call site.
pub proof fn lemma_moved_call_is_the_same(
    rel: Seq<char>,
    lang: Seq<char>,
    symbols: Seq<ParsedSymbol>,
    moved: Seq<ParsedSymbol>,
    imports: Seq<RawImport>,
    formal: Seq<Seq<char>>,
    c: RawCall,
    d: RawCall,
    q: Seq<char>,
    by: int,
)
    requires
        extraction::start_of(symbols, q) is Some,
        extraction::start_of(moved, q) is Some,
        extraction::start_of(moved, q)->Some_0 == extraction::start_of(symbols, q)->Some_0 + by,
        c.callee_start_byte >= extraction::start_of(symbols, q)->Some_0,
        d.callee_start_byte == c.callee_start_byte + by,
        d.callee_end_byte == c.callee_end_byte + by,
    ensures
        same_identity(
            identity_of(extraction::site_by(rel, lang, symbols, imports, formal, c, q)),
            identity_of(extraction::site_by(rel, lang, moved, imports, formal, d, q)),
        ),
{
    extraction::lemma_relative_span_moves(symbols, moved, q, c, d, by);
}

/// A stored site that was not read again is deleted.
pub proof fn lemma_unread_site_goes(stored: Seq<StoredSite>, fresh: Seq<SiteIdentity>, j: int)
    requires
        0 <= j < stored.len(),
        forall|i: int|
            0 <= i < fresh.len() ==> !same_identity(
                stored_identity(stored[j]),
                #[trigger] fresh[i],
            ),
    ensures
        gone(stored, fresh, stored.len()).contains(stored[j].id),
{
    let v = stored_identities(stored);
    if survives(v, fresh, j) {
        let i = choose|i: int|
            0 <= i < fresh.len() && #[trigger] match_from(v, fresh[i], 0) == Some(j);
        lemma_match_from(v, fresh[i], 0);
        assert(v[j] == stored_identity(stored[j]));
        assert(!same_identity(stored_identity(stored[j]), fresh[i]));
    }
    lemma_gone(stored, fresh, stored.len(), j);
}

proof fn lemma_gone(stored: Seq<StoredSite>, fresh: Seq<SiteIdentity>, n: nat, j: int)
    requires
        n <= stored.len(),
        0 <= j < n,
        !survives(stored_identities(stored), fresh, j),
    ensures
        gone(stored, fresh, n).contains(stored[j].id),
    decreases n,
{
    let init = gone(stored, fresh, (n - 1) as nat);
    let all = gone(stored, fresh, n);
    if j < n - 1 {
        lemma_gone(stored, fresh, (n - 1) as nat, j);
        let k = choose|k: int| 0 <= k < init.len() && init[k] == stored[j].id;
        assert(all[k] == stored[j].id);
    } else {
        assert(all[init.len() as int] == stored[j].id);
    }
}

} // verus!
