//! The course of an indexing run: which files are read again, what a run reports,
//! and the steps it takes.

use crate::cache;
use crate::edges;
use crate::names;
use crate::names::{KeyIndex, NameTable};
use crate::text;
use vstd::prelude::*;

verus! {

/// Files are read in batches of this size, so that only one batch is held at a
/// time.
pub const PARSE_BATCH_SIZE: usize = 1000;

// ---------------------------------------------------------------------------
// What a run reports
// ---------------------------------------------------------------------------

/// How a run brought the graph up to date.
#[derive(Debug, Clone, PartialEq, Eq)]
pub enum GraphMode {
    Full,
    Incremental,
    /// A full rebuild where an incremental one was asked for, and why.
    FullFallback(String),
}

/// The label of a mode.
pub open spec fn label_of(m: GraphMode) -> Seq<char> {
    match m {
        GraphMode::Full => "full"@,
        GraphMode::Incremental => "incremental"@,
        GraphMode::FullFallback(reason) => "full_fallback:"@ + reason@,
    }
}

impl Default for GraphMode {
    fn default() -> (r: Self)
        ensures
            r == GraphMode::Full,
    {
        GraphMode::Full
    }
}

impl GraphMode {
    /// A stable label; only what stands before the colon is to be matched on.
    pub fn label(&self) -> (r: String)
        ensures
            r@ == label_of(*self),
    {
        match self {
            GraphMode::Full => "full".to_owned(),
            GraphMode::Incremental => "incremental".to_owned(),
            GraphMode::FullFallback(reason) => {
                let mut out: String = "full_fallback:".to_owned();
                text::push_text(&mut out, reason.as_str());
                out
            },
        }
    }
}

/// What an incremental run did.
pub struct ReindexSummary {
    pub changed: usize,
    pub deleted: usize,
    /// The changed and the deleted paths.
    pub changed_paths: Vec<String>,
    /// The names of the symbols of those paths, before and after.
    pub names_delta: NameTable,
    pub graph_mode: GraphMode,
}

impl Default for ReindexSummary {
    fn default() -> (r: Self)
        ensures
            r.wf(),
            r.changed == 0,
            r.deleted == 0,
            r.changed_paths@.len() == 0,
            r.names_delta@.len() == 0,
            r.graph_mode == GraphMode::Full,
    {
        ReindexSummary {
            changed: 0,
            deleted: 0,
            changed_paths: Vec::new(),
            names_delta: NameTable::new(),
            graph_mode: GraphMode::Full,
        }
    }
}

/// The names of a table and those of a list, together.
pub open spec fn with_names(had: Seq<Seq<char>>, more: Seq<Seq<char>>) -> Seq<Seq<char>>
    decreases more.len(),
{
    if more.len() == 0 {
        had
    } else {
        names::first_uses_step(with_names(had, more.drop_last()), more.last())
    }
}

fn add_names(table: &mut NameTable, more: &Vec<String>)
    requires
        old(table).wf(),
    ensures
        final(table).wf(),
        final(table)@ == with_names(old(table)@, text::texts(more@)),
{
    let ghost all = text::texts(more@);
    let ghost had = table@;
    let mut i: usize = 0;
    assert(all.take(0) =~= seq![]);
    while i < more.len()
        invariant
            i <= more@.len(),
            all == text::texts(more@),
            table.wf(),
            table@ == with_names(had, all.take(i as int)),
        decreases more@.len() - i,
    {
        let _id: usize = table.intern(more[i].as_str());
        assert(all.take(i + 1).drop_last() =~= all.take(i as int));
        assert(all.take(i + 1).last() == more@[i as int]@);
        i += 1;
    }
    assert(all.take(all.len() as int) =~= all);
}

/// What is added is added, and nothing is lost.
pub proof fn lemma_with_names(had: Seq<Seq<char>>, more: Seq<Seq<char>>, n: Seq<char>)
    ensures
        with_names(had, more).contains(n) <==> had.contains(n) || more.contains(n),
    decreases more.len(),
{
    if more.len() > 0 {
        let rest = more.drop_last();
        let before = with_names(had, rest);
        lemma_with_names(had, rest, n);
        let after = with_names(had, more);
        if more.contains(n) {
            let k = choose|k: int| 0 <= k < more.len() && more[k] == n;
            if k < rest.len() {
                assert(rest[k] == n);
            }
        }
        if rest.contains(n) {
            let k = choose|k: int| 0 <= k < rest.len() && rest[k] == n;
            assert(more[k] == n);
        }
        assert(more[more.len() - 1] == more.last());
        if !before.contains(more.last()) {
            assert(after == before.push(more.last()));
            if before.contains(n) {
                let k = choose|k: int| 0 <= k < before.len() && before[k] == n;
                assert(after[k] == n);
            }
            assert(after[before.len() as int] == more.last());
            if after.contains(n) {
                let k = choose|k: int| 0 <= k < after.len() && after[k] == n;
                if k < before.len() {
                    assert(before[k] == n);
                }
            }
        }
    }
}

impl ReindexSummary {
    /// Every changed and every deleted file is listed.
    pub open spec fn wf(&self) -> bool {
        &&& self.names_delta.wf()
        &&& self.changed + self.deleted == self.changed_paths@.len()
    }

    pub fn is_noop(&self) -> (r: bool)
        ensures
            r == (self.changed == 0 && self.deleted == 0),
    {
        self.changed == 0 && self.deleted == 0
    }

    /// A file was read again: its symbols had the names `before` and have the
    /// names `after`.
    pub fn note_changed(&mut self, path: &str, before: &Vec<String>, after: &Vec<String>)
        requires
            old(self).wf(),
            old(self).changed_paths@.len() < usize::MAX,
        ensures
            final(self).wf(),
            final(self).changed == old(self).changed + 1,
            final(self).deleted == old(self).deleted,
            text::texts(final(self).changed_paths@) == text::texts(
                old(self).changed_paths@,
            ).push(path@),
            final(self).names_delta@ == with_names(
                with_names(old(self).names_delta@, text::texts(before@)),
                text::texts(after@),
            ),
            final(self).graph_mode == old(self).graph_mode,
    {
        add_names(&mut self.names_delta, before);
        add_names(&mut self.names_delta, after);
        self.changed = self.changed + 1;
        self.changed_paths.push(path.to_owned());
        assert(text::texts(self.changed_paths@) =~= text::texts(old(self).changed_paths@).push(
            path@,
        ));
    }

    /// A file is gone: its symbols had the names `before`.
    pub fn note_deleted(&mut self, path: &str, before: &Vec<String>)
        requires
            old(self).wf(),
            old(self).changed_paths@.len() < usize::MAX,
        ensures
            final(self).wf(),
            final(self).changed == old(self).changed,
            final(self).deleted == old(self).deleted + 1,
            text::texts(final(self).changed_paths@) == text::texts(
                old(self).changed_paths@,
            ).push(path@),
            final(self).names_delta@ == with_names(
                old(self).names_delta@,
                text::texts(before@),
            ),
            final(self).graph_mode == old(self).graph_mode,
    {
        add_names(&mut self.names_delta, before);
        self.deleted = self.deleted + 1;
        self.changed_paths.push(path.to_owned());
        assert(text::texts(self.changed_paths@) =~= text::texts(old(self).changed_paths@).push(
            path@,
        ));
    }

    /// Was a manifest at the project's root among the changed paths?
    pub fn touches_manifest(&self) -> (r: bool)
        ensures
            r == exists|i: int|
                0 <= i < self.changed_paths@.len() && cache::is_root_manifest(
                    (#[trigger] self.changed_paths@[i])@,
                ),
    {
        let mut i: usize = 0;
        while i < self.changed_paths.len()
            invariant
                i <= self.changed_paths@.len(),
                forall|k: int|
                    0 <= k < i ==> !cache::is_root_manifest((#[trigger] self.changed_paths@[k])@),
            decreases self.changed_paths@.len() - i,
        {
            if cache::is_manifest_path(self.changed_paths[i].as_str()) {
                assert(cache::is_root_manifest(self.changed_paths@[i as int]@));
                return true;
            }
            i += 1;
        }
        false
    }
}

/// A run that did something names at least one path that it did it to.
pub proof fn lemma_active_run_names_a_path(s: ReindexSummary)
    requires
        s.wf(),
        !(s.changed == 0 && s.deleted == 0),
    ensures
        s.changed_paths@.len() > 0,
{
}

// ---------------------------------------------------------------------------
// Which files are read again
// ---------------------------------------------------------------------------

/// A file of the index, with the hash of its contents.
pub struct KnownFile {
    pub path: String,
    pub hash: String,
}

/// A file that the walk found. Without a hash it could not be read.
pub struct ScannedFile {
    pub path: String,
    pub hash: Option<String>,
}

pub open spec fn known_paths(known: Seq<KnownFile>) -> Seq<Seq<char>> {
    known.map_values(|k: KnownFile| k.path@)
}

pub open spec fn scanned_paths(scanned: Seq<ScannedFile>) -> Seq<Seq<char>> {
    scanned.map_values(|s: ScannedFile| s.path@)
}

pub open spec fn known_as(path: Seq<char>) -> spec_fn(KnownFile) -> bool {
    |k: KnownFile| k.path@ == path
}

/// The stored hash of a file.
pub open spec fn stored_hash(known: Seq<KnownFile>, path: Seq<char>) -> Option<Seq<char>> {
    let hits = known.filter(known_as(path));
    if hits.len() == 0 {
        None
    } else {
        Some(hits.last().hash@)
    }
}

/// Did the contents of a file change? A file that could not be read did not, as
/// far as is known.
pub open spec fn has_changed(known: Seq<KnownFile>, s: ScannedFile) -> bool {
    s.hash is Some && stored_hash(known, s.path@) != Some(s.hash->Some_0@)
}

/// The positions of the first `n` scanned files that changed.
pub open spec fn changed_at(known: Seq<KnownFile>, scanned: Seq<ScannedFile>, n: nat) -> Seq<int>
    decreases n,
{
    if n == 0 || n > scanned.len() {
        seq![]
    } else if has_changed(known, scanned[n - 1]) {
        changed_at(known, scanned, (n - 1) as nat).push(n - 1)
    } else {
        changed_at(known, scanned, (n - 1) as nat)
    }
}

/// The positions of the first `n` known files that the walk did not find.
pub open spec fn missing_at(known: Seq<KnownFile>, scanned: Seq<ScannedFile>, n: nat) -> Seq<int>
    decreases n,
{
    if n == 0 || n > known.len() {
        seq![]
    } else if scanned_paths(scanned).contains(known[n - 1].path@) {
        missing_at(known, scanned, (n - 1) as nat)
    } else {
        missing_at(known, scanned, (n - 1) as nat).push(n - 1)
    }
}

/// What an incremental run has to do.
pub struct ReindexPlan {
    /// Positions of the scanned files to read again.
    pub changed: Vec<usize>,
    /// Positions of the known files whose rows go.
    pub deleted: Vec<usize>,
}

/// Compare the index with what the walk found.
pub fn plan_changed(known: &Vec<KnownFile>, scanned: &Vec<ScannedFile>) -> (r: ReindexPlan)
    ensures
        names::at(r.changed@) == changed_at(known@, scanned@, scanned@.len()),
        names::at(r.deleted@) == missing_at(known@, scanned@, known@.len()),
        names::within(r.changed@, scanned@.len()),
        names::within(r.deleted@, known@.len()),
{
    let mut by_path = KeyIndex::new();
    let mut i: usize = 0;
    while i < known.len()
        invariant
            i <= known@.len(),
            by_path.wf(),
            by_path@ =~= known_paths(known@).take(i as int),
        decreases known@.len() - i,
    {
        by_path.push(known[i].path.as_str(), i);
        i += 1;
    }
    assert(by_path@ =~= known_paths(known@));
    let mut changed: Vec<usize> = Vec::new();
    let mut found = NameTable::new();
    let ghost all = scanned_paths(scanned@);
    let mut j: usize = 0;
    assert(names::at(changed@) =~= seq![]);
    assert(found@ =~= names::first_uses(all.take(0)));
    while j < scanned.len()
        invariant
            j <= scanned@.len(),
            by_path.wf(),
            by_path@ == known_paths(known@),
            all == scanned_paths(scanned@),
            found.wf(),
            found@ == names::first_uses(all.take(j as int)),
            names::at(changed@) == changed_at(known@, scanned@, j as nat),
            names::within(changed@, scanned@.len()),
        decreases scanned@.len() - j,
    {
        let s = &scanned[j];
        let hits = by_path.get(s.path.as_str());
        let ghost own = names::pick(known@, names::at(hits@));
        proof {
            names::lemma_pick_positions(known@, by_path@, s.path@, known_as(s.path@));
            assert(own.len() == hits@.len());
        }
        let differs = match &s.hash {
            Some(h) => if hits.len() == 0 {
                true
            } else {
                let k = hits[hits.len() - 1];
                assert(own.last() == known@[k as int]);
                !text::str_eq(known[k].hash.as_str(), h.as_str())
            },
            None => false,
        };
        let ghost before = changed@;
        if differs {
            changed.push(j);
            assert(names::at(changed@) =~= names::at(before).push(j as int));
        }
        let _id: usize = found.intern(s.path.as_str());
        assert(all.take(j + 1).drop_last() =~= all.take(j as int));
        assert(all.take(j + 1).last() == s.path@);
        j += 1;
    }
    assert(all.take(all.len() as int) =~= all);
    let mut deleted: Vec<usize> = Vec::new();
    let mut m: usize = 0;
    assert(names::at(deleted@) =~= seq![]);
    while m < known.len()
        invariant
            m <= known@.len(),
            all == scanned_paths(scanned@),
            found.wf(),
            found@ == names::first_uses(all),
            names::at(deleted@) == missing_at(known@, scanned@, m as nat),
            names::within(deleted@, known@.len()),
        decreases known@.len() - m,
    {
        let ghost before = deleted@;
        proof {
            names::lemma_first_uses_contains(all, known@[m as int].path@);
        }
        if !found.contains(known[m].path.as_str()) {
            deleted.push(m);
            assert(names::at(deleted@) =~= names::at(before).push(m as int));
        }
        m += 1;
    }
    ReindexPlan { changed, deleted }
}

proof fn lemma_changed_at(known: Seq<KnownFile>, scanned: Seq<ScannedFile>, n: nat, i: int)
    requires
        n <= scanned.len(),
        0 <= i,
    ensures
        changed_at(known, scanned, n).contains(i) <==> i < n && has_changed(known, scanned[i]),
    decreases n,
{
    if n > 0 {
        lemma_changed_at(known, scanned, (n - 1) as nat, i);
        let a = changed_at(known, scanned, (n - 1) as nat);
        let b = changed_at(known, scanned, n);
        if has_changed(known, scanned[n - 1]) {
            lemma_push_contains(a, n - 1, i);
        }
    }
}

proof fn lemma_push_contains(a: Seq<int>, x: int, i: int)
    ensures
        a.push(x).contains(i) <==> a.contains(i) || i == x,
{
    let b = a.push(x);
    if a.contains(i) {
        let k = choose|k: int| 0 <= k < a.len() && a[k] == i;
        assert(b[k] == i);
    }
    assert(b[a.len() as int] == x);
    if b.contains(i) {
        let k = choose|k: int| 0 <= k < b.len() && b[k] == i;
        if k < a.len() {
            assert(a[k] == i);
        }
    }
}

proof fn lemma_missing_at(known: Seq<KnownFile>, scanned: Seq<ScannedFile>, n: nat, i: int)
    requires
        n <= known.len(),
        0 <= i,
    ensures
        missing_at(known, scanned, n).contains(i) <==> i < n && !scanned_paths(scanned).contains(
            known[i].path@,
        ),
    decreases n,
{
    if n > 0 {
        lemma_missing_at(known, scanned, (n - 1) as nat, i);
        let a = missing_at(known, scanned, (n - 1) as nat);
        if !scanned_paths(scanned).contains(known[n - 1].path@) {
            lemma_push_contains(a, n - 1, i);
        }
    }
}

/// A file that the walk found is never taken for a deleted one, whether it
/// could be read or not.
pub proof fn lemma_found_is_not_deleted(
    known: Seq<KnownFile>,
    scanned: Seq<ScannedFile>,
    i: int,
    j: int,
)
    requires
        0 <= i < known.len(),
        0 <= j < scanned.len(),
        known[i].path@ == scanned[j].path@,
    ensures
        !missing_at(known, scanned, known.len()).contains(i),
{
    lemma_missing_at(known, scanned, known.len(), i);
    assert(scanned_paths(scanned)[j] == known[i].path@);
}

/// A file that could not be read is neither read again nor deleted.
pub proof fn lemma_unreadable_is_left_alone(
    known: Seq<KnownFile>,
    scanned: Seq<ScannedFile>,
    i: int,
    j: int,
)
    requires
        0 <= i < known.len(),
        0 <= j < scanned.len(),
        known[i].path@ == scanned[j].path@,
        scanned[j].hash is None,
    ensures
        !changed_at(known, scanned, scanned.len()).contains(j),
        !missing_at(known, scanned, known.len()).contains(i),
{
    lemma_changed_at(known, scanned, scanned.len(), j);
    lemma_found_is_not_deleted(known, scanned, i, j);
}

/// Over an unchanged tree a run has nothing to do.
pub proof fn lemma_unchanged_tree_is_a_noop(known: Seq<KnownFile>, scanned: Seq<ScannedFile>)
    requires
        forall|j: int| 0 <= j < scanned.len() ==> !has_changed(known, #[trigger] scanned[j]),
        forall|i: int|
            0 <= i < known.len() ==> scanned_paths(scanned).contains(
                (#[trigger] known[i]).path@,
            ),
    ensures
        changed_at(known, scanned, scanned.len()).len() == 0,
        missing_at(known, scanned, known.len()).len() == 0,
{
    let a = changed_at(known, scanned, scanned.len());
    if a.len() > 0 {
        lemma_changed_range(known, scanned, scanned.len());
        lemma_changed_at(known, scanned, scanned.len(), a[0]);
        assert(a.contains(a[0]));
    }
    let b = missing_at(known, scanned, known.len());
    if b.len() > 0 {
        lemma_missing_range(known, scanned, known.len());
        lemma_missing_at(known, scanned, known.len(), b[0]);
        assert(b.contains(b[0]));
    }
}

proof fn lemma_changed_range(known: Seq<KnownFile>, scanned: Seq<ScannedFile>, n: nat)
    requires
        n <= scanned.len(),
    ensures
        forall|k: int|
            0 <= k < changed_at(known, scanned, n).len() ==> 0 <= #[trigger] changed_at(
                known,
                scanned,
                n,
            )[k] < n,
    decreases n,
{
    if n > 0 {
        lemma_changed_range(known, scanned, (n - 1) as nat);
        let a = changed_at(known, scanned, (n - 1) as nat);
        let b = changed_at(known, scanned, n);
        assert forall|k: int| 0 <= k < b.len() implies 0 <= #[trigger] b[k] < n by {
            if k < a.len() {
                assert(b[k] == a[k]);
            }
        }
    }
}

proof fn lemma_missing_range(known: Seq<KnownFile>, scanned: Seq<ScannedFile>, n: nat)
    requires
        n <= known.len(),
    ensures
        forall|k: int|
            0 <= k < missing_at(known, scanned, n).len() ==> 0 <= #[trigger] missing_at(
                known,
                scanned,
                n,
            )[k] < n,
    decreases n,
{
    if n > 0 {
        lemma_missing_range(known, scanned, (n - 1) as nat);
        let a = missing_at(known, scanned, (n - 1) as nat);
        let b = missing_at(known, scanned, n);
        assert forall|k: int| 0 <= k < b.len() implies 0 <= #[trigger] b[k] < n by {
            if k < a.len() {
                assert(b[k] == a[k]);
            }
        }
    }
}

/// What happens to one path that a caller names.
#[derive(Clone, Copy, Debug, PartialEq, Eq, Structural)]
pub enum PathAction {
    Skip,
    Delete,
    Reindex,
}

/// A path that is not on disk any more is deleted where it was known. One that
/// is there is read again where its kind is known, it could be read, and its
/// hash is another one.
pub open spec fn path_action(
    stored: Option<Seq<char>>,
    on_disk: bool,
    recognized: bool,
    hash: Option<Seq<char>>,
) -> PathAction {
    if !on_disk {
        if stored is Some {
            PathAction::Delete
        } else {
            PathAction::Skip
        }
    } else if recognized && hash is Some && stored != hash {
        PathAction::Reindex
    } else {
        PathAction::Skip
    }
}

/// Decide over one named path.
pub fn decide_path(
    stored: &Option<String>,
    on_disk: bool,
    recognized: bool,
    hash: &Option<String>,
) -> (r: PathAction)
    ensures
        r == path_action(
            edges::opt_text(*stored),
            on_disk,
            recognized,
            edges::opt_text(*hash),
        ),
{
    if !on_disk {
        return if stored.is_some() {
            PathAction::Delete
        } else {
            PathAction::Skip
        };
    }
    if !recognized {
        return PathAction::Skip;
    }
    match hash {
        None => PathAction::Skip,
        Some(h) => match stored {
            Some(s) => if text::str_eq(s.as_str(), h.as_str()) {
                PathAction::Skip
            } else {
                PathAction::Reindex
            },
            None => PathAction::Reindex,
        },
    }
}

// ---------------------------------------------------------------------------
// Rows of the file index
// ---------------------------------------------------------------------------

/// One row of the file index.
pub struct FileIndexRow {
    pub path: String,
    /// None for a file that is only listed.
    pub language: Option<String>,
    pub hash: String,
    pub symbol_count: usize,
    /// Why the file was not read.
    pub skip_reason: Option<String>,
}

/// The row of a file that was read, or that was not and why. One that was not
/// read has no symbols, and an empty hash, which no contents have.
pub fn index_row(
    path: &str,
    language: Option<String>,
    read: Result<String, String>,
    symbol_count: usize,
) -> (r: FileIndexRow)
    ensures
        r.path@ == path@,
        r.language == language,
        match read {
            Ok(hash) => {
                &&& r.hash@ == hash@
                &&& r.symbol_count == symbol_count
                &&& r.skip_reason is None
            },
            Err(reason) => {
                &&& r.hash@.len() == 0
                &&& r.symbol_count == 0
                &&& edges::opt_text(r.skip_reason) == Some(reason@)
            },
        },
{
    match read {
        Ok(hash) => FileIndexRow {
            path: path.to_owned(),
            language,
            hash,
            symbol_count,
            skip_reason: None,
        },
        Err(reason) => FileIndexRow {
            path: path.to_owned(),
            language,
            hash: String::new(),
            symbol_count: 0,
            skip_reason: Some(reason),
        },
    }
}

// ---------------------------------------------------------------------------
// Runs
// ---------------------------------------------------------------------------

/// How a run ended.
#[derive(Clone, Copy, Debug, PartialEq, Eq, Structural)]
pub enum PipelineOutcome {
    Completed,
    Cancelled,
}

/// How far a run is, as it is shown.
#[derive(Clone, Copy, Debug, PartialEq, Eq, Structural)]
pub enum IndexingPhase {
    Scanning,
    Parsing,
    BuildingEdges,
    Ready,
}

/// How an incremental run ended.
pub enum ReindexOutcome {
    Completed(ReindexSummary),
    Cancelled,
}

/// Where a run stands.
#[derive(Clone, Copy, Debug, PartialEq, Eq, Structural)]
pub enum Stage {
    Scanned,
    Reading,
    Sweeping,
    Building,
    Done,
}

/// What a run does next.
#[derive(Clone, Copy, Debug, PartialEq, Eq, Structural)]
pub enum RunStep {
    /// Begin a transaction. A run over everything first removes all rows.
    Begin { clear: bool },
    /// Read and store the files from `from` up to `to`.
    Batch { from: usize, to: usize },
    /// Remove the rows of the files that are gone.
    Sweep,
    /// Bring the graph up to date.
    BuildGraph,
    /// Store what was done. The graph has a new generation where it was built.
    Commit { new_generation: bool },
    /// Undo what was done.
    Rollback,
    /// The run is over.
    Stop,
}

/// A run over `total` files.
#[derive(Clone, Copy, Debug, PartialEq, Eq, Structural)]
pub struct Run {
    pub total: usize,
    /// The files before this one are stored.
    pub next: usize,
    /// An incremental run: it removes what is gone, and may have nothing to do.
    pub incremental: bool,
    pub stage: Stage,
    pub phase: IndexingPhase,
}

/// Where the batch that begins at `next` ends.
pub open spec fn batch_end(total: usize, next: usize) -> usize {
    if total - next > PARSE_BATCH_SIZE {
        (next + PARSE_BATCH_SIZE) as usize
    } else {
        total
    }
}

/// One step of a run. It asks for cancellation before it begins and before
/// every batch; `noop` says of an incremental run that nothing was changed.
pub open spec fn stepped(r: Run, cancelled: bool, noop: bool) -> (Run, RunStep) {
    match r.stage {
        Stage::Scanned => if cancelled {
            (Run { stage: Stage::Done, ..r }, RunStep::Stop)
        } else {
            (
                Run { stage: Stage::Reading, phase: IndexingPhase::Parsing, ..r },
                RunStep::Begin { clear: !r.incremental },
            )
        },
        Stage::Reading => if r.next < r.total {
            if cancelled {
                (Run { stage: Stage::Done, ..r }, RunStep::Rollback)
            } else {
                let to = batch_end(r.total, r.next);
                (Run { next: to, ..r }, RunStep::Batch { from: r.next, to })
            }
        } else if r.incremental {
            (Run { stage: Stage::Sweeping, ..r }, RunStep::Sweep)
        } else {
            (
                Run { stage: Stage::Building, phase: IndexingPhase::BuildingEdges, ..r },
                RunStep::BuildGraph,
            )
        },
        Stage::Sweeping => if noop {
            (
                Run { stage: Stage::Done, phase: IndexingPhase::Ready, ..r },
                RunStep::Commit { new_generation: false },
            )
        } else {
            (
                Run { stage: Stage::Building, phase: IndexingPhase::BuildingEdges, ..r },
                RunStep::BuildGraph,
            )
        },
        Stage::Building => (
            Run { stage: Stage::Done, phase: IndexingPhase::Ready, ..r },
            RunStep::Commit { new_generation: true },
        ),
        Stage::Done => (r, RunStep::Stop),
    }
}

impl Run {
    /// The files are read in order, and the graph is built over all of them.
    pub open spec fn wf(&self) -> bool {
        &&& self.next <= self.total
        &&& self.stage == Stage::Scanned ==> self.next == 0
        &&& (self.stage == Stage::Sweeping || self.stage == Stage::Building) ==> self.next
            == self.total
    }

    /// A run over the files that a walk found.
    pub fn start(total: usize, incremental: bool) -> (r: Self)
        ensures
            r.wf(),
            r == (Run {
                total,
                next: 0,
                incremental,
                stage: Stage::Scanned,
                phase: IndexingPhase::Scanning,
            }),
    {
        Run { total, next: 0, incremental, stage: Stage::Scanned, phase: IndexingPhase::Scanning }
    }

    pub fn step(&mut self, cancelled: bool, noop: bool) -> (r: RunStep)
        requires
            old(self).wf(),
        ensures
            final(self).wf(),
            (*final(self), r) == stepped(*old(self), cancelled, noop),
    {
        match self.stage {
            Stage::Scanned => {
                if cancelled {
                    self.stage = Stage::Done;
                    RunStep::Stop
                } else {
                    self.stage = Stage::Reading;
                    self.phase = IndexingPhase::Parsing;
                    RunStep::Begin { clear: !self.incremental }
                }
            },
            Stage::Reading => {
                if self.next < self.total {
                    if cancelled {
                        self.stage = Stage::Done;
                        RunStep::Rollback
                    } else {
                        let from = self.next;
                        let to = if self.total - from > PARSE_BATCH_SIZE {
                            from + PARSE_BATCH_SIZE
                        } else {
                            self.total
                        };
                        self.next = to;
                        RunStep::Batch { from, to }
                    }
                } else if self.incremental {
                    self.stage = Stage::Sweeping;
                    RunStep::Sweep
                } else {
                    self.stage = Stage::Building;
                    self.phase = IndexingPhase::BuildingEdges;
                    RunStep::BuildGraph
                }
            },
            Stage::Sweeping => {
                if noop {
                    self.stage = Stage::Done;
                    self.phase = IndexingPhase::Ready;
                    RunStep::Commit { new_generation: false }
                } else {
                    self.stage = Stage::Building;
                    self.phase = IndexingPhase::BuildingEdges;
                    RunStep::BuildGraph
                }
            },
            Stage::Building => {
                self.stage = Stage::Done;
                self.phase = IndexingPhase::Ready;
                RunStep::Commit { new_generation: true }
            },
            Stage::Done => RunStep::Stop,
        }
    }
}

/// What a run does, given at each step whether it is cancelled and whether it
/// had nothing to do.
pub open spec fn steps_of(r: Run, asked: Seq<(bool, bool)>) -> Seq<RunStep>
    decreases asked.len(),
{
    if asked.len() == 0 {
        seq![]
    } else {
        let (next, step) = stepped(r, asked[0].0, asked[0].1);
        seq![step] + steps_of(next, asked.drop_first())
    }
}

/// The state of a run after it was asked so many times.
pub open spec fn run_after(r: Run, asked: Seq<(bool, bool)>) -> Run
    decreases asked.len(),
{
    if asked.len() == 0 {
        r
    } else {
        run_after(stepped(r, asked[0].0, asked[0].1).0, asked.drop_first())
    }
}

proof fn lemma_steps_len(r: Run, asked: Seq<(bool, bool)>)
    ensures
        steps_of(r, asked).len() == asked.len(),
    decreases asked.len(),
{
    if asked.len() > 0 {
        lemma_steps_len(stepped(r, asked[0].0, asked[0].1).0, asked.drop_first());
    }
}

/// A run that is over does nothing more.
pub proof fn lemma_done_stays_done(r: Run, asked: Seq<(bool, bool)>, i: int)
    requires
        r.stage == Stage::Done,
        0 <= i < asked.len(),
    ensures
        steps_of(r, asked)[i] == RunStep::Stop,
    decreases asked.len(),
{
    lemma_steps_len(r, asked.drop_first());
    if i > 0 {
        lemma_done_stays_done(r, asked.drop_first(), i - 1);
        assert(steps_of(r, asked)[i] == steps_of(r, asked.drop_first())[i - 1]);
    }
}

/// Nothing is stored once a run was undone, and nothing is undone once it was
/// stored: a cancelled run leaves the index as it was.
pub proof fn lemma_ends_once(r: Run, asked: Seq<(bool, bool)>, i: int, j: int)
    requires
        0 <= i < j < asked.len(),
        steps_of(r, asked)[i] == RunStep::Rollback || steps_of(r, asked)[i] is Commit,
    ensures
        steps_of(r, asked)[j] == RunStep::Stop,
    decreases asked.len(),
{
    let (next, step) = stepped(r, asked[0].0, asked[0].1);
    let rest = asked.drop_first();
    lemma_steps_len(next, rest);
    assert(steps_of(r, asked)[j] == steps_of(next, rest)[j - 1]);
    if i == 0 {
        lemma_done_stays_done(next, rest, j - 1);
    } else {
        assert(steps_of(r, asked)[i] == steps_of(next, rest)[i - 1]);
        lemma_ends_once(next, rest, i - 1, j - 1);
    }
}

/// The files of the batches among some steps.
pub open spec fn files_read(steps: Seq<RunStep>) -> Seq<int>
    decreases steps.len(),
{
    if steps.len() == 0 {
        seq![]
    } else {
        let head = match steps[0] {
            RunStep::Batch { from, to } => Seq::new(
                (to - from) as nat,
                |k: int| from + k,
            ),
            _ => seq![],
        };
        head + files_read(steps.drop_first())
    }
}

/// The files from `a` up to `b`.
pub open spec fn range(a: int, b: int) -> Seq<int> {
    Seq::new(
        if a <= b {
            (b - a) as nat
        } else {
            0
        },
        |k: int| a + k,
    )
}

/// A run reads the files in order, each once: after any number of steps it has
/// read exactly those before `next`.
pub proof fn lemma_files_read_in_order(r: Run, asked: Seq<(bool, bool)>)
    requires
        r.wf(),
    ensures
        run_after(r, asked).wf(),
        run_after(r, asked).next >= r.next,
        files_read(steps_of(r, asked)) == range(r.next as int, run_after(r, asked).next as int),
    decreases asked.len(),
{
    if asked.len() == 0 {
        assert(range(r.next as int, r.next as int) =~= seq![]);
    } else {
        let (next, step) = stepped(r, asked[0].0, asked[0].1);
        let rest = asked.drop_first();
        lemma_files_read_in_order(next, rest);
        let all = steps_of(r, asked);
        assert(all.drop_first() =~= steps_of(next, rest));
        assert(all[0] == step);
        let end = run_after(next, rest).next as int;
        assert(range(r.next as int, next.next as int) + range(next.next as int, end) =~= range(
            r.next as int,
            end,
        ));
        match step {
            RunStep::Batch { from, to } => {
                assert(Seq::new((to - from) as nat, |k: int| from + k) =~= range(
                    r.next as int,
                    next.next as int,
                ));
            },
            _ => {
                assert(range(r.next as int, next.next as int) =~= seq![]);
            },
        }
        assert(files_read(all) =~= range(r.next as int, end));
    }
}

/// The graph gets a new generation only when it was built and stored, over all
/// files of the run.
pub proof fn lemma_generation_needs_the_whole_run(r: Run, cancelled: bool, noop: bool)
    requires
        r.wf(),
        stepped(r, cancelled, noop).1 == (RunStep::Commit { new_generation: true }),
    ensures
        r.stage == Stage::Building,
        r.next == r.total,
{
}

/// The batches that are left when the files before `next` are stored.
pub open spec fn batches(total: usize, next: usize) -> Seq<RunStep>
    decreases total - next,
{
    if next >= total {
        seq![]
    } else {
        let to = batch_end(total, next);
        seq![RunStep::Batch { from: next, to }] + batches(total, to)
    }
}

/// How a run ends that was not cancelled.
pub open spec fn last_steps(incremental: bool, noop: bool) -> Seq<RunStep> {
    if !incremental {
        seq![RunStep::BuildGraph, RunStep::Commit { new_generation: true }]
    } else if noop {
        seq![RunStep::Sweep, RunStep::Commit { new_generation: false }]
    } else {
        seq![RunStep::Sweep, RunStep::BuildGraph, RunStep::Commit { new_generation: true }]
    }
}

/// All that a run does that is not cancelled.
pub open spec fn whole_run(total: usize, incremental: bool, noop: bool) -> Seq<RunStep> {
    seq![RunStep::Begin { clear: !incremental }] + batches(total, 0) + last_steps(
        incremental,
        noop,
    )
}

proof fn lemma_step_and_rest(r: Run, asked: Seq<(bool, bool)>)
    requires
        asked.len() > 0,
    ensures
        steps_of(r, asked) == seq![stepped(r, asked[0].0, asked[0].1).1] + steps_of(
            stepped(r, asked[0].0, asked[0].1).0,
            asked.drop_first(),
        ),
        run_after(r, asked) == run_after(
            stepped(r, asked[0].0, asked[0].1).0,
            asked.drop_first(),
        ),
{
}

proof fn lemma_uncancelled_from(r: Run, asked: Seq<(bool, bool)>, noop: bool)
    requires
        r.wf(),
        r.stage == Stage::Reading,
        asked.len() == batches(r.total, r.next).len() + last_steps(r.incremental, noop).len(),
        forall|i: int| 0 <= i < asked.len() ==> !(#[trigger] asked[i]).0,
        r.incremental ==> asked[batches(r.total, r.next).len() as int + 1].1 == noop,
    ensures
        steps_of(r, asked) == batches(r.total, r.next) + last_steps(r.incremental, noop),
        run_after(r, asked).stage == Stage::Done,
        run_after(r, asked).phase == IndexingPhase::Ready,
        run_after(r, asked).next == r.total,
    decreases r.total - r.next,
{
    let (next, step) = stepped(r, asked[0].0, asked[0].1);
    let rest = asked.drop_first();
    assert(!asked[0].0);
    lemma_step_and_rest(r, asked);
    assert forall|i: int| 0 <= i < rest.len() implies !(#[trigger] rest[i]).0 by {
        assert(rest[i] == asked[i + 1]);
    }
    let ending = last_steps(r.incremental, noop);
    if r.next < r.total {
        let n = batches(next.total, next.next).len();
        assert(batches(r.total, r.next) == seq![step] + batches(next.total, next.next));
        if r.incremental {
            assert(rest[n as int + 1] == asked[n as int + 2]);
        }
        lemma_uncancelled_from(next, rest, noop);
        assert(steps_of(r, asked) =~= batches(r.total, r.next) + ending);
    } else {
        assert(batches(r.total, r.next) =~= seq![]);
        assert(rest[0] == asked[1]);
        lemma_step_and_rest(next, rest);
        let (second, step2) = stepped(next, rest[0].0, rest[0].1);
        let rest2 = rest.drop_first();
        if r.incremental && !noop {
            lemma_step_and_rest(second, rest2);
            let (third, step3) = stepped(second, rest2[0].0, rest2[0].1);
            assert(rest2.drop_first() =~= seq![]);
            assert(steps_of(third, rest2.drop_first()) =~= seq![]);
            assert(steps_of(r, asked) =~= seq![step, step2, step3]);
        } else {
            assert(rest2 =~= seq![]);
            assert(steps_of(second, rest2) =~= seq![]);
            assert(steps_of(r, asked) =~= seq![step, step2]);
        }
        assert(steps_of(r, asked) =~= batches(r.total, r.next) + ending);
    }
}

/// The run that `Run::start` gives.
pub open spec fn started(total: usize, incremental: bool) -> Run {
    Run { total, next: 0, incremental, stage: Stage::Scanned, phase: IndexingPhase::Scanning }
}

/// How many new generations some steps make of the graph.
pub open spec fn generations(steps: Seq<RunStep>) -> nat
    decreases steps.len(),
{
    if steps.len() == 0 {
        0
    } else {
        generations(steps.drop_last()) + if steps.last() == (RunStep::Commit {
            new_generation: true,
        }) {
            1nat
        } else {
            0
        }
    }
}

/// How many times some steps store what was done.
pub open spec fn commits(steps: Seq<RunStep>) -> nat
    decreases steps.len(),
{
    if steps.len() == 0 {
        0
    } else {
        commits(steps.drop_last()) + if steps.last() is Commit {
            1nat
        } else {
            0
        }
    }
}

proof fn lemma_batches_only_read(total: usize, next: usize)
    requires
        next <= total,
    ensures
        files_read(batches(total, next)) == range(next as int, total as int),
        forall|i: int|
            0 <= i < batches(total, next).len() ==> (#[trigger] batches(total, next)[i]) is Batch,
    decreases total - next,
{
    let all = batches(total, next);
    if next < total {
        let to = batch_end(total, next);
        lemma_batches_only_read(total, to);
        let rest = batches(total, to);
        assert(all.drop_first() =~= rest);
        assert(Seq::new((to - next) as nat, |k: int| next + k) =~= range(next as int, to as int));
        assert(range(next as int, to as int) + range(to as int, total as int) =~= range(
            next as int,
            total as int,
        ));
        assert forall|i: int| 0 <= i < all.len() implies (#[trigger] all[i]) is Batch by {
            if i > 0 {
                assert(all[i] == rest[i - 1]);
            }
        }
    } else {
        assert(range(next as int, total as int) =~= seq![]);
    }
}

proof fn lemma_counts_none(steps: Seq<RunStep>)
    requires
        forall|i: int| 0 <= i < steps.len() ==> !((#[trigger] steps[i]) is Commit),
    ensures
        generations(steps) == 0,
        commits(steps) == 0,
    decreases steps.len(),
{
    if steps.len() > 0 {
        assert forall|i: int| 0 <= i < steps.drop_last().len() implies !((
        #[trigger] steps.drop_last()[i]) is Commit) by {
            assert(steps.drop_last()[i] == steps[i]);
        }
        lemma_counts_none(steps.drop_last());
        assert(!(steps[steps.len() - 1] is Commit));
    }
}

proof fn lemma_whole_run_commits_last(total: usize, incremental: bool, noop: bool)
    ensures
        ({
            let all = whole_run(total, incremental, noop);
            &&& all.len() >= 2
            &&& all.last() == (RunStep::Commit { new_generation: !(incremental && noop) })
            &&& forall|i: int|
                0 <= i < all.len() - 1 ==> !((#[trigger] all[i]) is Commit) && all[i]
                    != RunStep::Rollback
        }),
{
    let all = whole_run(total, incremental, noop);
    let b = batches(total, 0);
    let ending = last_steps(incremental, noop);
    lemma_batches_only_read(total, 0);
    assert(all.last() == ending.last());
    assert forall|i: int| 0 <= i < all.len() - 1 implies !((#[trigger] all[i]) is Commit)
        && all[i] != RunStep::Rollback by {
        if 0 < i <= b.len() {
            assert(all[i] == b[i - 1]);
        } else if i > b.len() {
            assert(all[i] == ending[i - 1 - b.len()]);
        }
    }
}

proof fn lemma_files_read_split(a: Seq<RunStep>, b: Seq<RunStep>)
    ensures
        files_read(a + b) == files_read(a) + files_read(b),
    decreases a.len(),
{
    if a.len() == 0 {
        assert(a + b =~= b);
        assert(files_read(a) + files_read(b) =~= files_read(b));
    } else {
        lemma_files_read_split(a.drop_first(), b);
        assert((a + b).drop_first() =~= a.drop_first() + b);
        assert((a + b)[0] == a[0]);
        let head = match a[0] {
            RunStep::Batch { from, to } => Seq::new((to - from) as nat, |k: int| from + k),
            _ => seq![],
        };
        assert(head + (files_read(a.drop_first()) + files_read(b)) =~= (head + files_read(
            a.drop_first(),
        )) + files_read(b));
    }
}

proof fn lemma_reads_none(steps: Seq<RunStep>)
    requires
        forall|i: int| 0 <= i < steps.len() ==> !((#[trigger] steps[i]) is Batch),
    ensures
        files_read(steps) == Seq::<int>::empty(),
    decreases steps.len(),
{
    if steps.len() > 0 {
        assert forall|i: int| 0 <= i < steps.drop_first().len() implies !((
        #[trigger] steps.drop_first()[i]) is Batch) by {
            assert(steps.drop_first()[i] == steps[i + 1]);
        }
        lemma_reads_none(steps.drop_first());
        assert(!(steps[0] is Batch));
        assert(files_read(steps) =~= Seq::<int>::empty());
    }
}

/// A run that nothing cancels reads every file once, in order, stores what it
/// did exactly once, at its very end, and is then ready. A run over everything
/// makes one new generation of the graph; an incremental one does where it had
/// something to do, which it is asked once the files that are gone were removed.
pub proof fn lemma_uncancelled_run_completes(
    total: usize,
    incremental: bool,
    noop: bool,
    asked: Seq<(bool, bool)>,
)
    requires
        asked.len() == whole_run(total, incremental, noop).len(),
        forall|i: int| 0 <= i < asked.len() ==> !(#[trigger] asked[i]).0,
        incremental ==> asked[batches(total, 0).len() as int + 2].1 == noop,
    ensures
        steps_of(started(total, incremental), asked) == whole_run(total, incremental, noop),
        files_read(whole_run(total, incremental, noop)) == range(0, total as int),
        commits(whole_run(total, incremental, noop)) == 1,
        whole_run(total, incremental, noop).last() is Commit,
        generations(whole_run(total, incremental, noop)) == (if incremental && noop {
            0nat
        } else {
            1
        }),
        run_after(started(total, incremental), asked).stage == Stage::Done,
        run_after(started(total, incremental), asked).phase == IndexingPhase::Ready,
        run_after(started(total, incremental), asked).next == total,
{
    let r = started(total, incremental);
    let all = whole_run(total, incremental, noop);
    let b = batches(total, 0);
    let ending = last_steps(incremental, noop);
    let first = seq![RunStep::Begin { clear: !incremental }];
    let rest = asked.drop_first();
    assert(!asked[0].0);
    lemma_step_and_rest(r, asked);
    let (next, step) = stepped(r, asked[0].0, asked[0].1);
    assert forall|i: int| 0 <= i < rest.len() implies !(#[trigger] rest[i]).0 by {
        assert(rest[i] == asked[i + 1]);
    }
    if incremental {
        assert(rest[b.len() as int + 1] == asked[b.len() as int + 2]);
    }
    lemma_uncancelled_from(next, rest, noop);
    assert(steps_of(r, asked) =~= all);
    lemma_batches_only_read(total, 0);
    assert(all =~= first + (b + ending));
    lemma_files_read_split(first, b + ending);
    lemma_files_read_split(b, ending);
    lemma_reads_none(first);
    lemma_reads_none(ending);
    assert(files_read(all) =~= range(0, total as int));
    lemma_whole_run_commits_last(total, incremental, noop);
    let init = all.drop_last();
    assert forall|i: int| 0 <= i < init.len() implies !((#[trigger] init[i]) is Commit) by {
        assert(init[i] == all[i]);
    }
    lemma_counts_none(init);
}

// ---------------------------------------------------------------------------
// What a run leaves in the index
// ---------------------------------------------------------------------------

/// The rows of some files, and then those of the files from `from` up to `to`
/// of a run in place of what these had.
pub open spec fn with_files<T>(
    rows: Map<Seq<char>, T>,
    files: Seq<(Seq<char>, T)>,
    from: int,
    to: int,
) -> Map<Seq<char>, T>
    decreases to - from,
{
    if from >= to {
        rows
    } else {
        with_files(rows.insert(files[from].0, files[from].1), files, from + 1, to)
    }
}

/// The rows of every file once some steps were carried out. `stored` are the
/// rows that were stored before, `working` those of the open transaction,
/// `files` the files of the run with what was read from each, and `gone` the
/// files that the walk did not find any more.
pub open spec fn index_after<T>(
    stored: Map<Seq<char>, T>,
    working: Map<Seq<char>, T>,
    files: Seq<(Seq<char>, T)>,
    gone: Set<Seq<char>>,
    steps: Seq<RunStep>,
) -> Map<Seq<char>, T>
    decreases steps.len(),
{
    if steps.len() == 0 {
        stored
    } else {
        let rest = steps.drop_first();
        match steps[0] {
            RunStep::Begin { clear } => index_after(
                stored,
                if clear {
                    Map::empty()
                } else {
                    stored
                },
                files,
                gone,
                rest,
            ),
            RunStep::Batch { from, to } => index_after(
                stored,
                with_files(working, files, from as int, to as int),
                files,
                gone,
                rest,
            ),
            RunStep::Sweep => index_after(stored, working.remove_keys(gone), files, gone, rest),
            RunStep::Commit { .. } => index_after(working, working, files, gone, rest),
            RunStep::Rollback => index_after(stored, stored, files, gone, rest),
            RunStep::BuildGraph | RunStep::Stop => index_after(
                stored,
                working,
                files,
                gone,
                rest,
            ),
        }
    }
}

proof fn lemma_with_files_split<T>(
    rows: Map<Seq<char>, T>,
    files: Seq<(Seq<char>, T)>,
    a: int,
    b: int,
    c: int,
)
    requires
        a <= b <= c,
    ensures
        with_files(with_files(rows, files, a, b), files, b, c) == with_files(rows, files, a, c),
    decreases b - a,
{
    if a < b {
        lemma_with_files_split(rows.insert(files[a].0, files[a].1), files, a + 1, b, c);
    }
}

proof fn lemma_batches_store<T>(
    stored: Map<Seq<char>, T>,
    working: Map<Seq<char>, T>,
    files: Seq<(Seq<char>, T)>,
    gone: Set<Seq<char>>,
    total: usize,
    next: usize,
    rest: Seq<RunStep>,
)
    requires
        next <= total,
    ensures
        index_after(stored, working, files, gone, batches(total, next) + rest) == index_after(
            stored,
            with_files(working, files, next as int, total as int),
            files,
            gone,
            rest,
        ),
    decreases total - next,
{
    let all = batches(total, next) + rest;
    if next < total {
        let to = batch_end(total, next);
        assert(all[0] == (RunStep::Batch { from: next, to }));
        assert(all.drop_first() =~= batches(total, to) + rest);
        let then = with_files(working, files, next as int, to as int);
        lemma_batches_store(stored, then, files, gone, total, to, rest);
        lemma_with_files_split(working, files, next as int, to as int, total as int);
    } else {
        assert(all =~= rest);
    }
}

/// A run over everything leaves what it read of its files, and nothing else.
pub proof fn lemma_full_run_leaves_its_files<T>(
    before: Map<Seq<char>, T>,
    files: Seq<(Seq<char>, T)>,
    gone: Set<Seq<char>>,
    total: usize,
    noop: bool,
)
    ensures
        index_after(before, before, files, gone, whole_run(total, false, noop)) == with_files(
            Map::empty(),
            files,
            0,
            total as int,
        ),
{
    let all = whole_run(total, false, noop);
    let ending = last_steps(false, noop);
    let left = with_files(Map::empty(), files, 0, total as int);
    assert(all[0] == (RunStep::Begin { clear: true }));
    assert(all.drop_first() =~= batches(total, 0) + ending);
    lemma_batches_store(before, Map::empty(), files, gone, total, 0, ending);
    let end = ending.drop_first();
    assert(end[0] is Commit);
    assert(end.drop_first() =~= seq![]);
    assert(index_after(left, left, files, gone, end.drop_first()) == left);
    assert(index_after(before, left, files, gone, end) == left);
}

/// A run over everything leaves what it would leave in an empty index: nothing
/// of what was stored before shows.
pub proof fn lemma_full_run_starts_afresh<T>(
    before: Map<Seq<char>, T>,
    files: Seq<(Seq<char>, T)>,
    gone: Set<Seq<char>>,
    total: usize,
    noop: bool,
)
    ensures
        index_after(before, before, files, gone, whole_run(total, false, noop)) == index_after(
            Map::empty(),
            Map::empty(),
            files,
            gone,
            whole_run(total, false, noop),
        ),
{
    lemma_full_run_leaves_its_files(before, files, gone, total, noop);
    lemma_full_run_leaves_its_files(Map::empty(), files, gone, total, noop);
}

proof fn lemma_done_after(r: Run, asked: Seq<(bool, bool)>)
    requires
        r.stage == Stage::Done,
    ensures
        run_after(r, asked) == r,
    decreases asked.len(),
{
    if asked.len() > 0 {
        lemma_done_after(r, asked.drop_first());
    }
}

/// Does a run that stands here heed a cancellation: before it begins, or before
/// a batch?
pub open spec fn heeds(r: Run) -> bool {
    r.stage == Stage::Scanned || (r.stage == Stage::Reading && r.next < r.total)
}

/// A run that is cancelled where it heeds that stores nothing, before or after.
pub proof fn lemma_cancelled_run_stores_nothing(r: Run, asked: Seq<(bool, bool)>, i: int, j: int)
    requires
        0 <= i < asked.len(),
        0 <= j < asked.len(),
        heeds(run_after(r, asked.take(i))),
        asked[i].0,
    ensures
        !(steps_of(r, asked)[j] is Commit),
    decreases asked.len(),
{
    let (next, step) = stepped(r, asked[0].0, asked[0].1);
    let rest = asked.drop_first();
    lemma_steps_len(next, rest);
    if i == 0 {
        assert(asked.take(0) =~= seq![]);
        if j > 0 {
            lemma_done_stays_done(next, rest, j - 1);
            assert(steps_of(r, asked)[j] == steps_of(next, rest)[j - 1]);
        }
    } else {
        let head = asked.take(i);
        assert(head[0] == asked[0]);
        assert(head.drop_first() =~= rest.take(i - 1));
        assert(rest[i - 1] == asked[i]);
        if j == 0 {
            if step is Commit {
                lemma_done_after(next, head.drop_first());
            }
        } else {
            lemma_cancelled_run_stores_nothing(next, rest, i - 1, j - 1);
            assert(steps_of(r, asked)[j] == steps_of(next, rest)[j - 1]);
        }
    }
}

/// A run that stores nothing, as one that was cancelled, leaves the index as it
/// was.
pub proof fn lemma_unstored_run_leaves_the_index<T>(
    stored: Map<Seq<char>, T>,
    working: Map<Seq<char>, T>,
    files: Seq<(Seq<char>, T)>,
    gone: Set<Seq<char>>,
    steps: Seq<RunStep>,
)
    requires
        forall|i: int| 0 <= i < steps.len() ==> !((#[trigger] steps[i]) is Commit),
    ensures
        index_after(stored, working, files, gone, steps) == stored,
    decreases steps.len(),
{
    if steps.len() > 0 {
        let rest = steps.drop_first();
        assert(!(steps[0] is Commit));
        assert forall|i: int| 0 <= i < rest.len() implies !((#[trigger] rest[i]) is Commit) by {
            assert(rest[i] == steps[i + 1]);
        }
        let next = match steps[0] {
            RunStep::Begin { clear } => if clear {
                Map::empty()
            } else {
                stored
            },
            RunStep::Batch { from, to } => with_files(working, files, from as int, to as int),
            RunStep::Sweep => working.remove_keys(gone),
            RunStep::Rollback => stored,
            _ => working,
        };
        lemma_unstored_run_leaves_the_index(stored, next, files, gone, rest);
    }
}

} // verus!
