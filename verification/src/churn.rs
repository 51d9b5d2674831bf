//! How often the files of a project change, relative to the one that changes
//! most.

use crate::names;
use crate::names::KeyIndex;
use vstd::prelude::*;

verus! {

/// How many commits in the window touch a file.
pub struct FileSignal {
    pub path: String,
    pub commit_count: u64,
}

/// A file's churn, as a fraction of the largest count.
#[derive(Clone, Copy, Debug, PartialEq, Eq, Structural)]
pub struct ChurnScore {
    pub count: u64,
    pub out_of: u64,
}

/// The largest commit count, and 1 where nothing was committed.
pub open spec fn largest(signals: Seq<FileSignal>) -> u64
    decreases signals.len(),
{
    if signals.len() == 0 {
        1
    } else {
        let init = largest(signals.drop_last());
        if signals.last().commit_count > init {
            signals.last().commit_count
        } else {
            init
        }
    }
}

pub open spec fn at_path(path: Seq<char>) -> spec_fn(FileSignal) -> bool {
    |s: FileSignal| s.path@ == path
}

/// How many commits touch a file: as its last signal says, and none without one.
pub open spec fn commits_of(signals: Seq<FileSignal>, path: Seq<char>) -> u64 {
    let own = signals.filter(at_path(path));
    if own.len() == 0 {
        0
    } else {
        own.last().commit_count
    }
}

/// The score of a file. A file that no commit touches was measured, and scores
/// zero; without a repository nothing was measured.
pub open spec fn score_of(
    signals: Seq<FileSignal>,
    git_available: bool,
    path: Seq<char>,
) -> Option<ChurnScore> {
    if git_available {
        Some(ChurnScore { count: commits_of(signals, path), out_of: largest(signals) })
    } else {
        None
    }
}

/// The scores of the files at `paths`.
pub fn update_churn_scores(
    paths: &Vec<String>,
    signals: &Vec<FileSignal>,
    git_available: bool,
) -> (r: Vec<Option<ChurnScore>>)
    ensures
        r@.len() == paths@.len(),
        forall|i: int|
            0 <= i < r@.len() ==> #[trigger] r@[i] == score_of(
                signals@,
                git_available,
                paths@[i]@,
            ),
{
    let mut max: u64 = 1;
    let mut by_path = KeyIndex::new();
    let mut i: usize = 0;
    while i < signals.len()
        invariant
            i <= signals@.len(),
            max == largest(signals@.take(i as int)),
            by_path.wf(),
            by_path@ =~= signals@.map_values(|s: FileSignal| s.path@).take(i as int),
        decreases signals@.len() - i,
    {
        assert(signals@.take(i + 1).drop_last() =~= signals@.take(i as int));
        if signals[i].commit_count > max {
            max = signals[i].commit_count;
        }
        by_path.push(signals[i].path.as_str(), i);
        i += 1;
    }
    assert(signals@.take(signals@.len() as int) =~= signals@);
    assert(by_path@ =~= signals@.map_values(|s: FileSignal| s.path@));
    let mut out: Vec<Option<ChurnScore>> = Vec::new();
    let mut j: usize = 0;
    while j < paths.len()
        invariant
            j <= paths@.len(),
            max == largest(signals@),
            by_path.wf(),
            by_path@ == signals@.map_values(|s: FileSignal| s.path@),
            out@.len() == j,
            forall|k: int|
                0 <= k < j ==> #[trigger] out@[k] == score_of(
                    signals@,
                    git_available,
                    paths@[k]@,
                ),
        decreases paths@.len() - j,
    {
        let p = paths[j].as_str();
        let hits = by_path.get(p);
        proof {
            names::lemma_pick_positions(signals@, by_path@, p@, at_path(p@));
            assert(names::pick(signals@, names::at(hits@)).len() == hits@.len());
        }
        let count = if hits.len() == 0 {
            0
        } else {
            let h = hits[hits.len() - 1];
            assert(names::pick(signals@, names::at(hits@)).last() == signals@[h as int]);
            signals[h].commit_count
        };
        out.push(
            if git_available {
                Some(ChurnScore { count, out_of: max })
            } else {
                None
            },
        );
        j += 1;
    }
    out
}

/// A score lies between 0 and 1, and its denominator is never 0.
pub proof fn lemma_score_is_a_fraction(
    signals: Seq<FileSignal>,
    git_available: bool,
    path: Seq<char>,
)
    ensures
        score_of(signals, git_available, path) matches Some(s) ==> 1 <= s.out_of && s.count
            <= s.out_of,
{
    lemma_largest_positive(signals);
    let own = signals.filter(at_path(path));
    if own.len() > 0 {
        assert(own.contains(own.last()));
        signals.lemma_filter_contains_rev(at_path(path), own.last());
        let i = choose|i: int| 0 <= i < signals.len() && signals[i] == own.last();
        lemma_largest_bounds(signals, i);
    }
}

proof fn lemma_largest_bounds(signals: Seq<FileSignal>, i: int)
    requires
        0 <= i < signals.len(),
    ensures
        signals[i].commit_count <= largest(signals),
    decreases signals.len(),
{
    if i < signals.len() - 1 {
        lemma_largest_bounds(signals.drop_last(), i);
    }
}

proof fn lemma_largest_positive(signals: Seq<FileSignal>)
    ensures
        1 <= largest(signals),
    decreases signals.len(),
{
    if signals.len() > 0 {
        lemma_largest_positive(signals.drop_last());
    }
}

/// The file that changes most scores 1, as soon as any file was committed.
pub proof fn lemma_largest_is_reached(signals: Seq<FileSignal>)
    requires
        exists|i: int| 0 <= i < signals.len() && (#[trigger] signals[i]).commit_count > 0,
    ensures
        exists|i: int|
            0 <= i < signals.len() && (#[trigger] signals[i]).commit_count == largest(signals),
    decreases signals.len(),
{
    let rest = signals.drop_last();
    let w = choose|i: int| 0 <= i < signals.len() && (#[trigger] signals[i]).commit_count > 0;
    if signals.last().commit_count > largest(rest) {
        assert(signals[signals.len() - 1].commit_count == largest(signals));
    } else if exists|i: int| 0 <= i < rest.len() && (#[trigger] rest[i]).commit_count > 0 {
        lemma_largest_is_reached(rest);
        let i = choose|i: int|
            0 <= i < rest.len() && (#[trigger] rest[i]).commit_count == largest(rest);
        assert(signals[i] == rest[i]);
    } else {
        if w < rest.len() {
            assert(rest[w].commit_count > 0);
        }
        lemma_largest_of_zeros(rest);
        assert(signals[signals.len() - 1].commit_count == largest(signals));
    }
}

proof fn lemma_largest_of_zeros(signals: Seq<FileSignal>)
    requires
        forall|i: int| 0 <= i < signals.len() ==> (#[trigger] signals[i]).commit_count == 0,
    ensures
        largest(signals) == 1,
    decreases signals.len(),
{
    if signals.len() > 0 {
        let rest = signals.drop_last();
        assert forall|i: int| 0 <= i < rest.len() implies (#[trigger] rest[i]).commit_count
            == 0 by {
            assert(rest[i] == signals[i]);
        }
        lemma_largest_of_zeros(rest);
        assert(signals[signals.len() - 1].commit_count == 0);
    }
}

} // verus!
