//! What the project's own declarations say about its modules: which files
//! declare a namespace, where a crate's sources stand, which file a
//! namespaced class is loaded from.

use crate::edges;
use crate::go_module::GoModule;
use crate::jvm_package::JvmPackageMap;
use crate::names;
use crate::names::KeyIndex;
use crate::pysyspath::PySysPathMap;
use crate::text;
use vstd::hash_map::StringHashMap;
use vstd::prelude::*;

verus! {

/// Which files declare which namespaces.
pub struct NamespaceMap {
    namespaces: KeyIndex,
    files: Vec<String>,
}

impl NamespaceMap {
    /// The declarations, as pairs of a namespace and a file.
    pub closed spec fn view(&self) -> Seq<(Seq<char>, Seq<char>)> {
        Seq::new(self.files@.len(), |i: int| (self.namespaces@[i], self.files@[i]@))
    }

    pub closed spec fn wf(&self) -> bool {
        self.namespaces.wf() && self.namespaces@.len() == self.files@.len()
    }

    /// Does `file` declare the namespace `ns`?
    pub open spec fn declares(&self, ns: Seq<char>, file: Seq<char>) -> bool {
        self@.contains((ns, file))
    }

    pub fn new() -> (r: Self)
        ensures
            r.wf(),
            r@ == Seq::<(Seq<char>, Seq<char>)>::empty(),
    {
        let r = NamespaceMap { namespaces: KeyIndex::new(), files: Vec::new() };
        assert(r@ =~= Seq::<(Seq<char>, Seq<char>)>::empty());
        r
    }

    /// Record that `file` declares `ns`.
    pub fn declare(&mut self, ns: &str, file: &str)
        requires
            old(self).wf(),
        ensures
            final(self).wf(),
            final(self)@ == old(self)@.push((ns@, file@)),
    {
        let n = self.files.len();
        self.namespaces.push(ns, n);
        self.files.push(file.to_owned());
        assert(self@ =~= old(self)@.push((ns@, file@)));
    }

    pub fn is_empty(&self) -> (r: bool)
        requires
            self.wf(),
        ensures
            r == (self@.len() == 0),
    {
        self.files.len() == 0
    }

    pub fn contains(&self, ns: &str, file: &str) -> (r: bool)
        requires
            self.wf(),
        ensures
            r == self.declares(ns@, file@),
    {
        let hits = self.namespaces.get(ns);
        let ghost want = (ns@, file@);
        let mut i: usize = 0;
        proof {
            names::lemma_positions_within(self.namespaces@, ns@);
        }
        while i < hits.len()
            invariant
                i <= hits@.len(),
                self.wf(),
                want == (ns@, file@),
                names::at(hits@) == names::positions(self.namespaces@, ns@),
                names::within(hits@, self.namespaces@.len()),
                forall|k: int| 0 <= k < i ==> self.files@[(#[trigger] hits@[k]) as int]@ != file@,
                forall|k: int|
                    #![trigger names::positions(self.namespaces@, ns@)[k]]
                    0 <= k < names::positions(self.namespaces@, ns@).len()
                        ==> self.namespaces@[names::positions(self.namespaces@, ns@)[k]] == ns@,
            decreases hits@.len() - i,
        {
            let h = hits[i];
            if text::str_eq(self.files[h].as_str(), file) {
                proof {
                    assert(names::at(hits@)[i as int] == h);
                    assert(self@[h as int] == want);
                }
                return true;
            }
            i += 1;
        }
        proof {
            if self.declares(ns@, file@) {
                let j = choose|j: int| 0 <= j < self@.len() && self@[j] == want;
                names::lemma_position_of(self.namespaces@, ns@, j);
                let k = choose|k: int|
                    0 <= k < names::positions(self.namespaces@, ns@).len()
                        && names::positions(self.namespaces@, ns@)[k] == j;
                assert(names::at(hits@)[k] == hits@[k]);
            }
        }
        false
    }

    /// The one file that declares `ns`: none where no file does, and none
    /// where more than one does.
    pub open spec fn sole_file(&self, ns: Seq<char>) -> Option<Seq<char>> {
        let files = names::first_uses(self.files_of(ns));
        if files.len() == 1 {
            Some(files[0])
        } else {
            None
        }
    }

    /// The files of every declaration of `ns`, in order.
    pub open spec fn files_of(&self, ns: Seq<char>) -> Seq<Seq<char>> {
        self@.filter(declaration_of(ns)).map_values(|d: (Seq<char>, Seq<char>)| d.1)
    }

    pub fn resolve(&self, ns: &str) -> (r: Option<String>)
        requires
            self.wf(),
        ensures
            edges::opt_text(r) == self.sole_file(ns@),
    {
        let hits = self.namespaces.get(ns);
        proof {
            names::lemma_pick_positions(self@, self.namespaces@, ns@, declaration_of(ns@));
        }
        let ghost all = self.files_of(ns@);
        let mut distinct: Vec<String> = Vec::new();
        let mut i: usize = 0;
        while i < hits.len()
            invariant
                i <= hits@.len(),
                self.wf(),
                all == self.files_of(ns@),
                names::within(hits@, self.namespaces@.len()),
                names::pick(self@, names::at(hits@)) == self@.filter(declaration_of(ns@)),
                all.len() == hits@.len(),
                text::texts(distinct@) == names::first_uses(all.take(i as int)),
            decreases hits@.len() - i,
        {
            let h = hits[i];
            proof {
                assert(names::pick(self@, names::at(hits@))[i as int] == self@[h as int]);
                assert(all[i as int] == self.files@[h as int]@);
                assert(all.take(i + 1).drop_last() =~= all.take(i as int));
            }
            let ghost before = distinct@;
            if !text::has_text(&distinct, self.files[h].as_str()) {
                distinct.push(self.files[h].clone());
                assert(text::texts(distinct@) =~= text::texts(before).push(
                    self.files@[h as int]@,
                ));
            }
            i += 1;
        }
        assert(all.take(all.len() as int) =~= all);
        assert(text::texts(distinct@).len() == distinct@.len());
        if distinct.len() == 1 {
            assert(text::texts(distinct@)[0] == distinct@[0]@);
            Some(distinct[0].clone())
        } else {
            None
        }
    }
}

/// Picks the declarations of one namespace.
pub open spec fn declaration_of(ns: Seq<char>) -> spec_fn((Seq<char>, Seq<char>)) -> bool {
    |d: (Seq<char>, Seq<char>)| d.0 == ns
}

/// A table from texts to texts.
pub struct TextMap {
    entries: StringHashMap<String>,
}

impl TextMap {
    pub closed spec fn view(&self) -> Map<Seq<char>, Seq<char>> {
        self.entries@.map_values(|v: String| v@)
    }

    pub fn new() -> (r: Self)
        ensures
            r@ == Map::<Seq<char>, Seq<char>>::empty(),
    {
        let r = TextMap { entries: StringHashMap::new() };
        assert(r@ =~= Map::<Seq<char>, Seq<char>>::empty());
        r
    }

    pub fn set(&mut self, key: &str, value: &str)
        ensures
            final(self)@ == old(self)@.insert(key@, value@),
    {
        self.entries.insert(key.to_owned(), value.to_owned());
        assert(self@ =~= old(self)@.insert(key@, value@));
    }

    /// What the table has for `key`.
    pub open spec fn at(&self, key: Seq<char>) -> Option<Seq<char>> {
        if self@.contains_key(key) {
            Some(self@[key])
        } else {
            None
        }
    }

    pub fn get(&self, key: &str) -> (r: Option<String>)
        ensures
            edges::opt_text(r) == self.at(key@),
    {
        match self.entries.get(key) {
            Some(v) => Some(v.clone()),
            None => None,
        }
    }
}

/// Where the crates of a Rust workspace have their sources.
pub struct CrateMap {
    /// The source root of a crate, by the crate's name.
    pub roots: TextMap,
    /// The source root of the crate that a file belongs to, by the file.
    pub homes: TextMap,
}

impl CrateMap {
    pub fn new() -> (r: Self)
        ensures
            r.roots@ == Map::<Seq<char>, Seq<char>>::empty(),
            r.homes@ == Map::<Seq<char>, Seq<char>>::empty(),
    {
        CrateMap { roots: TextMap::new(), homes: TextMap::new() }
    }

    pub fn root_of(&self, name: &str) -> (r: Option<String>)
        ensures
            edges::opt_text(r) == self.roots.at(name@),
    {
        self.roots.get(name)
    }

    pub fn crate_of_file(&self, path: &str) -> (r: Option<String>)
        ensures
            edges::opt_text(r) == self.homes.at(path@),
    {
        self.homes.get(path)
    }
}

/// Which file a PHP class is loaded from, by its namespaced name.
pub struct Psr4Map {
    pub targets: TextMap,
}

impl Psr4Map {
    pub fn new() -> (r: Self)
        ensures
            r.targets@ == Map::<Seq<char>, Seq<char>>::empty(),
    {
        Psr4Map { targets: TextMap::new() }
    }

    pub fn resolve(&self, name: &str) -> (r: Option<String>)
        ensures
            edges::opt_text(r) == self.targets.at(name@),
    {
        self.targets.get(name)
    }
}

/// Everything that the resolution of an import consults besides the list of
/// indexed files.
pub struct ResolutionMaps {
    pub crate_map: CrateMap,
    pub psr4: Psr4Map,
    pub namespace_map: NamespaceMap,
    pub pysys: PySysPathMap,
    pub jvm: JvmPackageMap,
    pub go: GoModule,
}

impl ResolutionMaps {
    pub open spec fn wf(&self) -> bool {
        self.namespace_map.wf() && self.pysys.wf() && self.jvm.wf()
    }
}

} // verus!
