//! Names as keys: a table that numbers distinct names in the order they first
//! appear, and an index from a name to the positions it stands at in a list.

use vstd::hash_map::StringHashMap;
use vstd::prelude::*;

verus! {

/// Distinct names, numbered from zero, with a lookup from name to number.
pub struct NameTable {
    ids: StringHashMap<usize>,
    names: Vec<String>,
}

impl Clone for NameTable {
    fn clone(&self) -> (r: Self)
        ensures
            r@ == self@,
            self.wf() ==> r.wf(),
    {
        let mut ids: StringHashMap<usize> = StringHashMap::new();
        let mut i: usize = 0;
        while i < self.names.len()
            invariant
                i <= self.names@.len(),
                self@.len() == self.names@.len(),
                self.wf() ==> forall|k: int|
                    0 <= k < i ==> #[trigger] ids@.contains_key(self@[k]) && ids@[self@[k]] == k,
                forall|n: Seq<char>| #[trigger]
                    ids@.contains_key(n) ==> ids@[n] < i && self@[ids@[n] as int] == n,
            decreases self.names@.len() - i,
        {
            let ghost before = ids@;
            ids.insert(self.names[i].clone(), i);
            proof {
                assert(self@[i as int] == self.names@[i as int]@);
                if self.wf() {
                    assert forall|k: int| 0 <= k < i + 1 implies #[trigger] ids@.contains_key(
                        self@[k],
                    ) && ids@[self@[k]] == k by {
                        if k < i && self@[k] == self@[i as int] {
                            self.lemma_distinct(k, i as int);
                        }
                        if k < i {
                            assert(before.contains_key(self@[k]));
                        }
                    }
                }
                assert forall|n: Seq<char>| #[trigger] ids@.contains_key(n) implies ids@[n] < i + 1
                    && self@[ids@[n] as int] == n by {
                    if n != self@[i as int] {
                        assert(before.contains_key(n));
                    }
                }
            }
            i += 1;
        }
        NameTable { ids, names: crate::text::copy_texts(&self.names) }
    }
}

impl NameTable {
    /// The names in the order of their numbers.
    pub closed spec fn view(&self) -> Seq<Seq<char>> {
        crate::text::texts(self.names@)
    }

    /// No name occurs twice, and the lookup gives each name its own number.
    pub closed spec fn wf(&self) -> bool {
        &&& forall|i: int|
            0 <= i < self@.len() ==> #[trigger] self.ids@.contains_key(self@[i])
                && self.ids@[self@[i]] == i
        &&& forall|n: Seq<char>| #[trigger]
            self.ids@.contains_key(n) ==> self.ids@[n] < self@.len() && self@[self.ids@[n] as int]
                == n
    }

    /// A well-formed table holds every name once.
    pub proof fn lemma_distinct(&self, i: int, j: int)
        requires
            self.wf(),
            0 <= i < self@.len(),
            0 <= j < self@.len(),
            self@[i] == self@[j],
        ensures
            i == j,
    {
        assert(self.ids@.contains_key(self@[i]));
        assert(self.ids@.contains_key(self@[j]));
    }

    pub fn new() -> (r: Self)
        ensures
            r.wf(),
            r@ == Seq::<Seq<char>>::empty(),
    {
        let r = NameTable { ids: StringHashMap::new(), names: Vec::new() };
        assert(r@ =~= Seq::<Seq<char>>::empty());
        r
    }

    pub fn len(&self) -> (r: usize)
        ensures
            r == self@.len(),
    {
        self.names.len()
    }

    pub fn name(&self, i: usize) -> (r: &String)
        requires
            i < self@.len(),
        ensures
            r@ == self@[i as int],
    {
        &self.names[i]
    }

    /// The number of `name`, if it is in the table.
    pub fn lookup(&self, name: &str) -> (r: Option<usize>)
        requires
            self.wf(),
        ensures
            match r {
                Some(i) => i < self@.len() && self@[i as int] == name@,
                None => !self@.contains(name@),
            },
    {
        match self.ids.get(name) {
            Some(i) => {
                assert(self.ids@.contains_key(name@));
                Some(*i)
            },
            None => {
                proof {
                    if self@.contains(name@) {
                        let k = choose|k: int| 0 <= k < self@.len() && self@[k] == name@;
                        assert(self.ids@.contains_key(self@[k]));
                    }
                }
                None
            },
        }
    }

    pub fn contains(&self, name: &str) -> (r: bool)
        requires
            self.wf(),
        ensures
            r == self@.contains(name@),
    {
        match self.lookup(name) {
            Some(i) => {
                assert(self@[i as int] == name@);
                true
            },
            None => false,
        }
    }

    /// The number of `name`, which is added at the end when it is new.
    pub fn intern(&mut self, name: &str) -> (r: usize)
        requires
            old(self).wf(),
        ensures
            final(self).wf(),
            r < final(self)@.len(),
            final(self)@[r as int] == name@,
            final(self)@ == if old(self)@.contains(name@) {
                old(self)@
            } else {
                old(self)@.push(name@)
            },
    {
        match self.lookup(name) {
            Some(i) => {
                assert(self@[i as int] == name@);
                i
            },
            None => {
                let ghost before = *self;
                let i = self.names.len();
                self.ids.insert(name.to_owned(), i);
                self.names.push(name.to_owned());
                assert(self@ =~= before@.push(name@));
                proof {
                    assert forall|k: int| 0 <= k < self@.len() implies #[trigger] self.ids@.contains_key(
                        self@[k],
                    ) && self.ids@[self@[k]] == k by {
                        if k < before@.len() {
                            assert(self@[k] == before@[k]);
                            assert(before.ids@.contains_key(before@[k]));
                            assert(before@.contains(before@[k]));
                        }
                    }
                    assert forall|n: Seq<char>| #[trigger] self.ids@.contains_key(n) implies self.ids@[n]
                        < self@.len() && self@[self.ids@[n] as int] == n by {
                        if n != name@ {
                            assert(before.ids@.contains_key(n));
                        }
                    }
                }
                i
            },
        }
    }
}

/// A list of distinct names with `n` added at its end, if it is new.
pub open spec fn first_uses_step(s: Seq<Seq<char>>, n: Seq<char>) -> Seq<Seq<char>> {
    if s.contains(n) {
        s
    } else {
        s.push(n)
    }
}

/// The distinct texts of `s`, each where it first appears.
pub open spec fn first_uses(s: Seq<Seq<char>>) -> Seq<Seq<char>>
    decreases s.len(),
{
    if s.len() == 0 {
        seq![]
    } else {
        let init = first_uses(s.drop_last());
        if init.contains(s.last()) {
            init
        } else {
            init.push(s.last())
        }
    }
}

pub proof fn lemma_first_uses_contains(s: Seq<Seq<char>>, n: Seq<char>)
    ensures
        first_uses(s).contains(n) <==> s.contains(n),
    decreases s.len(),
{
    if s.len() > 0 {
        let init = first_uses(s.drop_last());
        lemma_first_uses_contains(s.drop_last(), n);
        lemma_first_uses_contains(s.drop_last(), s.last());
        if s.contains(n) {
            let k = choose|k: int| 0 <= k < s.len() && s[k] == n;
            if k < s.len() - 1 {
                assert(s.drop_last()[k] == n);
            }
            if !init.contains(s.last()) {
                if n == s.last() {
                    assert(first_uses(s)[init.len() as int] == n);
                } else {
                    let j = choose|j: int| 0 <= j < init.len() && init[j] == n;
                    assert(first_uses(s)[j] == n);
                }
            }
        }
        if first_uses(s).contains(n) {
            let k = choose|k: int| 0 <= k < first_uses(s).len() && first_uses(s)[k] == n;
            if k < init.len() {
                assert(init[k] == n);
                let j = choose|j: int| 0 <= j < s.drop_last().len() && s.drop_last()[j] == n;
                assert(s[j] == n);
            } else {
                assert(s[s.len() - 1] == n);
            }
        }
    }
}

// ---------------------------------------------------------------------------
// An index over a list of keys
// ---------------------------------------------------------------------------

/// The positions at which `k` stands in `keys`, ascending.
pub open spec fn positions(keys: Seq<Seq<char>>, k: Seq<char>) -> Seq<int>
    decreases keys.len(),
{
    if keys.len() == 0 {
        seq![]
    } else if keys.last() == k {
        positions(keys.drop_last(), k).push(keys.len() - 1)
    } else {
        positions(keys.drop_last(), k)
    }
}

/// The entries of `rows` at the given positions.
pub open spec fn pick<T>(rows: Seq<T>, at: Seq<int>) -> Seq<T> {
    at.map_values(|i: int| rows[i])
}

/// Machine positions as mathematical ones.
pub open spec fn at(v: Seq<usize>) -> Seq<int> {
    v.map_values(|i: usize| i as int)
}

/// All positions lie inside a list of length `n`.
pub open spec fn within(v: Seq<usize>, n: nat) -> bool {
    forall|i: int| 0 <= i < v.len() ==> (#[trigger] v[i]) < n
}

pub proof fn lemma_positions_within(keys: Seq<Seq<char>>, k: Seq<char>)
    ensures
        forall|i: int|
            #![trigger positions(keys, k)[i]]
            0 <= i < positions(keys, k).len() ==> 0 <= positions(keys, k)[i] < keys.len()
                && keys[positions(keys, k)[i]] == k,
    decreases keys.len(),
{
    if keys.len() > 0 {
        let init = positions(keys.drop_last(), k);
        lemma_positions_within(keys.drop_last(), k);
        assert forall|i: int|
            #![trigger positions(keys, k)[i]]
            0 <= i < positions(keys, k).len() implies 0 <= positions(keys, k)[i] < keys.len()
            && keys[positions(keys, k)[i]] == k by {
            if i < init.len() {
                assert(positions(keys, k)[i] == init[i]);
                assert(keys.drop_last()[init[i]] == keys[init[i]]);
            }
        }
    }
}

/// A key that stands in the list has a position, and only then.
pub proof fn lemma_positions_nonempty(keys: Seq<Seq<char>>, k: Seq<char>)
    ensures
        positions(keys, k).len() > 0 <==> keys.contains(k),
    decreases keys.len(),
{
    if keys.len() > 0 {
        lemma_positions_nonempty(keys.drop_last(), k);
        if keys.drop_last().contains(k) {
            let j = choose|j: int| 0 <= j < keys.drop_last().len() && keys.drop_last()[j] == k;
            assert(keys[j] == k);
        }
        if keys.contains(k) && keys.last() != k {
            let j = choose|j: int| 0 <= j < keys.len() && keys[j] == k;
            assert(keys.drop_last()[j] == k);
        }
        if keys.last() == k {
            assert(keys[keys.len() - 1] == k);
        }
    }
}

/// Every standing of a key in the list is among its positions.
pub proof fn lemma_position_of(keys: Seq<Seq<char>>, k: Seq<char>, j: int)
    requires
        0 <= j < keys.len(),
        keys[j] == k,
    ensures
        exists|i: int| 0 <= i < positions(keys, k).len() && positions(keys, k)[i] == j,
    decreases keys.len(),
{
    if j == keys.len() - 1 {
        assert(positions(keys, k)[positions(keys, k).len() - 1] == j);
    } else {
        let q = keys.drop_last();
        lemma_position_of(q, k, j);
        let i = choose|i: int| 0 <= i < positions(q, k).len() && positions(q, k)[i] == j;
        assert(positions(keys, k)[i] == j);
    }
}

/// Picking the positions of a key is filtering by that key.
pub proof fn lemma_pick_positions<T>(
    rows: Seq<T>,
    keys: Seq<Seq<char>>,
    k: Seq<char>,
    p: spec_fn(T) -> bool,
)
    requires
        rows.len() == keys.len(),
        forall|i: int| 0 <= i < rows.len() ==> p(#[trigger] rows[i]) == (keys[i] == k),
    ensures
        pick(rows, positions(keys, k)) == rows.filter(p),
    decreases rows.len(),
{
    reveal(Seq::filter);
    if rows.len() > 0 {
        let r = rows.drop_last();
        let q = keys.drop_last();
        assert forall|i: int| 0 <= i < r.len() implies p(#[trigger] r[i]) == (q[i] == k) by {
            assert(r[i] == rows[i]);
        }
        lemma_pick_positions(r, q, k, p);
        lemma_positions_within(q, k);
        assert(pick(rows, positions(q, k)) =~= pick(r, positions(q, k)));
        if keys.last() == k {
            assert(pick(rows, positions(keys, k)) =~= pick(rows, positions(q, k)).push(
                rows.last(),
            ));
        }
    }
    assert(pick(rows, positions(keys, k)) =~= rows.filter(p));
}

/// An index from each key of a list to the positions it stands at.
pub struct KeyIndex {
    table: NameTable,
    members: Vec<Vec<usize>>,
    keys: Ghost<Seq<Seq<char>>>,
}

impl Clone for KeyIndex {
    fn clone(&self) -> (r: Self)
        ensures
            r@ == self@,
            self.wf() ==> r.wf(),
    {
        let mut members: Vec<Vec<usize>> = Vec::new();
        let mut i: usize = 0;
        while i < self.members.len()
            invariant
                i <= self.members@.len(),
                members@.len() == i,
                forall|k: int| 0 <= k < i ==> (#[trigger] members@[k])@ == self.members@[k]@,
            decreases self.members@.len() - i,
        {
            let row = self.members[i].clone();
            assert(row@ =~= self.members@[i as int]@);
            members.push(row);
            i += 1;
        }
        KeyIndex { table: self.table.clone(), members, keys: Ghost(self.keys@) }
    }
}

impl KeyIndex {
    /// The indexed list of keys.
    pub closed spec fn view(&self) -> Seq<Seq<char>> {
        self.keys@
    }

    pub closed spec fn wf(&self) -> bool {
        &&& self.table.wf()
        &&& self.members@.len() == self.table@.len()
        &&& forall|k: Seq<char>| #[trigger]
            self.keys@.contains(k) ==> self.table@.contains(k)
        &&& forall|t: int|
            0 <= t < self.members@.len() ==> at((#[trigger] self.members@[t])@) == positions(
                self.keys@,
                self.table@[t],
            )
    }

    pub fn new() -> (r: Self)
        ensures
            r.wf(),
            r@ == Seq::<Seq<char>>::empty(),
    {
        KeyIndex { table: NameTable::new(), members: Vec::new(), keys: Ghost(Seq::empty()) }
    }

    /// Append `key` to the indexed list; `n` is the list's length so far.
    pub fn push(&mut self, key: &str, n: usize)
        requires
            old(self).wf(),
            n == old(self)@.len(),
        ensures
            final(self).wf(),
            final(self)@ == old(self)@.push(key@),
    {
        let ghost before = *self;
        let t = self.table.intern(key);
        let ghost grown = !before.table@.contains(key@);
        if t == self.members.len() {
            self.members.push(Vec::new());
        }
        proof {
            if grown {
                if t < before.table@.len() {
                    assert(before.table@[t as int] == key@);
                    assert(before.table@.contains(key@));
                }
                lemma_positions_nonempty(before.keys@, key@);
                assert(at(self.members@[t as int]@) =~= positions(before.keys@, key@));
            }
            assert(self.members@.len() == self.table@.len());
            assert forall|u: int| 0 <= u < self.members@.len() implies at(
                (#[trigger] self.members@[u])@,
            ) == positions(before.keys@, self.table@[u]) by {
                if u < before.table@.len() {
                    assert(self.table@[u] == before.table@[u]);
                    assert(self.members@[u] == before.members@[u]);
                }
            }
        }
        let ghost mid = self.members@;
        self.members[t].push(n);
        self.keys = Ghost(self.keys@.push(key@));
        proof {
            let ks = self.keys@;
            assert(ks.drop_last() =~= before.keys@);
            assert forall|k: Seq<char>| #[trigger] ks.contains(k) implies self.table@.contains(
                k,
            ) by {
                if k == key@ {
                    assert(self.table@[t as int] == k);
                } else {
                    let j = choose|j: int| 0 <= j < ks.len() && ks[j] == k;
                    assert(before.keys@[j] == k);
                    assert(before.keys@.contains(k));
                    let i = choose|i: int| 0 <= i < before.table@.len() && before.table@[i] == k;
                    assert(self.table@[i] == k);
                }
            }
            assert forall|u: int| 0 <= u < self.members@.len() implies at(
                (#[trigger] self.members@[u])@,
            ) == positions(ks, self.table@[u]) by {
                assert(at(mid[u]@) == positions(before.keys@, self.table@[u]));
                if u == t {
                    assert(at(self.members@[u]@) =~= at(mid[u]@).push(n as int));
                } else {
                    if self.table@[u] == key@ {
                        self.table.lemma_distinct(u, t as int);
                    }
                }
            }
        }
    }

    /// The positions of `key` in the indexed list.
    pub fn get(&self, key: &str) -> (r: Vec<usize>)
        requires
            self.wf(),
        ensures
            at(r@) == positions(self@, key@),
            within(r@, self@.len()),
    {
        proof {
            lemma_positions_within(self.keys@, key@);
        }
        let r = match self.table.lookup(key) {
            Some(t) => self.members[t].clone(),
            None => {
                proof {
                    lemma_positions_nonempty(self.keys@, key@);
                }
                Vec::new()
            },
        };
        assert(at(r@) =~= positions(self@, key@));
        proof {
            assert forall|i: int| 0 <= i < r@.len() implies (#[trigger] r@[i]) < self@.len() by {
                assert(at(r@)[i] == r@[i]);
                assert(positions(self@, key@)[i] < self@.len());
            }
        }
        r
    }

    /// Does `key` stand in the indexed list?
    pub fn has(&self, key: &str) -> (r: bool)
        requires
            self.wf(),
        ensures
            r == self@.contains(key@),
    {
        let v = self.get(key);
        proof {
            lemma_positions_nonempty(self@, key@);
            assert(at(v@).len() == v@.len());
        }
        v.len() > 0
    }
}

} // verus!
