//! Reading everything anew once, where stored call sites have an identity of an
//! older kind, and the record that is kept of it.

use crate::driver::{GraphMode, PipelineOutcome, ReindexOutcome, ReindexSummary};
use crate::edges;
use crate::identity::StoredSite;
use crate::text;
use vstd::prelude::*;

verus! {

/// Call sites from this version on are told apart by where they stand.
pub const SITE_IDENTITY_VERSION: i64 = 2;

/// A site that only its line tells apart.
pub open spec fn is_outdated(s: StoredSite) -> bool {
    s.identity_version < SITE_IDENTITY_VERSION || s.callee_start_byte is None
        || s.callee_end_byte is None
}

/// Is there a stored site whose identity is out of date? The files of such
/// sites are unchanged, so that only reading everything brings it up to date.
pub fn needs_call_site_identity_baseline(sites: &Vec<StoredSite>) -> (r: bool)
    ensures
        r == exists|i: int| 0 <= i < sites@.len() && is_outdated(#[trigger] sites@[i]),
{
    let mut i: usize = 0;
    while i < sites.len()
        invariant
            i <= sites@.len(),
            forall|j: int| 0 <= j < i ==> !is_outdated(#[trigger] sites@[j]),
        decreases sites@.len() - i,
    {
        let s = &sites[i];
        if s.identity_version < SITE_IDENTITY_VERSION || s.callee_start_byte.is_none()
            || s.callee_end_byte.is_none() {
            assert(is_outdated(sites@[i as int]));
            return true;
        }
        i += 1;
    }
    false
}

// ---------------------------------------------------------------------------
// The record
// ---------------------------------------------------------------------------

/// What a run cost; times are in milliseconds.
#[derive(Clone, Copy, Debug, PartialEq, Eq, Structural)]
pub struct MigrationMetrics {
    pub duration_ms: i64,
    pub rows_rebuilt: i64,
    pub busy_retries: i64,
    pub graph_generation: Option<i64>,
}

/// The record of the last run.
pub struct MigrationState {
    pub target_version: i64,
    pub status: String,
    pub started_at: Option<i64>,
    pub completed_at: Option<i64>,
    pub failed_at: Option<i64>,
    pub failure_reason: Option<String>,
    pub duration_ms: Option<i64>,
    pub rows_rebuilt: Option<i64>,
    pub busy_retries: Option<i64>,
    pub graph_generation: Option<i64>,
}

pub struct MigrationView {
    pub target_version: int,
    pub status: Seq<char>,
    pub started_at: Option<i64>,
    pub completed_at: Option<i64>,
    pub failed_at: Option<i64>,
    pub failure_reason: Option<Seq<char>>,
    pub duration_ms: Option<i64>,
    pub rows_rebuilt: Option<i64>,
    pub busy_retries: Option<i64>,
    pub graph_generation: Option<i64>,
}

impl View for MigrationState {
    type V = MigrationView;

    open spec fn view(&self) -> MigrationView {
        MigrationView {
            target_version: self.target_version as int,
            status: self.status@,
            started_at: self.started_at,
            completed_at: self.completed_at,
            failed_at: self.failed_at,
            failure_reason: edges::opt_text(self.failure_reason),
            duration_ms: self.duration_ms,
            rows_rebuilt: self.rows_rebuilt,
            busy_retries: self.busy_retries,
            graph_generation: self.graph_generation,
        }
    }
}

/// `now`, for a status that says so.
pub open spec fn time_if(said: bool, now: i64) -> Option<i64> {
    if said {
        Some(now)
    } else {
        None
    }
}

/// A new value where there is one, else what the record held.
pub open spec fn or_kept(new: Option<i64>, held: Option<i64>) -> Option<i64> {
    if new is Some {
        new
    } else {
        held
    }
}

/// The record once a status is noted. The start is that of the last run that
/// was begun; the end and the reason are those of this status alone; a number
/// that is not given stays as it was.
pub open spec fn noted(
    prior: Option<MigrationView>,
    status: Seq<char>,
    reason: Option<Seq<char>>,
    metrics: Option<MigrationMetrics>,
    now: i64,
) -> MigrationView {
    let running = status == "running"@;
    MigrationView {
        target_version: SITE_IDENTITY_VERSION as int,
        status,
        started_at: if running {
            Some(now)
        } else {
            match prior {
                Some(p) => p.started_at,
                None => None,
            }
        },
        completed_at: time_if(status == "baseline_ready"@, now),
        failed_at: time_if(status == "failed"@, now),
        failure_reason: reason,
        duration_ms: or_kept(
            match metrics {
                Some(m) => Some(m.duration_ms),
                None => None,
            },
            match prior {
                Some(p) => p.duration_ms,
                None => None,
            },
        ),
        rows_rebuilt: or_kept(
            match metrics {
                Some(m) => Some(m.rows_rebuilt),
                None => None,
            },
            match prior {
                Some(p) => p.rows_rebuilt,
                None => None,
            },
        ),
        busy_retries: or_kept(
            match metrics {
                Some(m) => Some(m.busy_retries),
                None => None,
            },
            match prior {
                Some(p) => p.busy_retries,
                None => None,
            },
        ),
        graph_generation: or_kept(
            match metrics {
                Some(m) => m.graph_generation,
                None => None,
            },
            match prior {
                Some(p) => p.graph_generation,
                None => None,
            },
        ),
    }
}

pub open spec fn prior_view(p: Option<MigrationState>) -> Option<MigrationView> {
    match p {
        Some(s) => Some(s@),
        None => None,
    }
}

fn first_of(new: Option<i64>, held: Option<i64>) -> (r: Option<i64>)
    ensures
        r == or_kept(new, held),
{
    match new {
        Some(n) => Some(n),
        None => held,
    }
}

/// Note a status in the record of the migration.
pub fn record_call_site_identity_migration_status(
    prior: &Option<MigrationState>,
    status: &str,
    failure_reason: Option<&str>,
    metrics: Option<MigrationMetrics>,
    now: i64,
) -> (r: MigrationState)
    ensures
        r@ == noted(
            prior_view(*prior),
            status@,
            match failure_reason {
                Some(s) => Some(s@),
                None => None,
            },
            metrics,
            now,
        ),
{
    let running = text::str_eq(status, "running");
    let ready = text::str_eq(status, "baseline_ready");
    let failed = text::str_eq(status, "failed");
    let (duration, rows, retries, generation) = match metrics {
        Some(m) => (
            Some(m.duration_ms),
            Some(m.rows_rebuilt),
            Some(m.busy_retries),
            m.graph_generation,
        ),
        None => (None, None, None, None),
    };
    let (was_started, was_duration, was_rows, was_retries, was_generation) = match prior {
        Some(p) => (
            p.started_at,
            p.duration_ms,
            p.rows_rebuilt,
            p.busy_retries,
            p.graph_generation,
        ),
        None => (None, None, None, None, None),
    };
    MigrationState {
        target_version: SITE_IDENTITY_VERSION,
        status: status.to_owned(),
        started_at: if running {
            Some(now)
        } else {
            was_started
        },
        completed_at: if ready {
            Some(now)
        } else {
            None
        },
        failed_at: if failed {
            Some(now)
        } else {
            None
        },
        failure_reason: match failure_reason {
            Some(s) => Some(s.to_owned()),
            None => None,
        },
        duration_ms: first_of(duration, was_duration),
        rows_rebuilt: first_of(rows, was_rows),
        busy_retries: first_of(retries, was_retries),
        graph_generation: first_of(generation, was_generation),
    }
}

// ---------------------------------------------------------------------------
// The end of a run
// ---------------------------------------------------------------------------

/// What is noted at the end of a run, and what the run is reported as.
pub struct BaselineEnd {
    pub status: String,
    pub failure_reason: Option<String>,
    pub rows_rebuilt: i64,
    /// Absent for a run that failed: its error is passed on.
    pub outcome: Option<ReindexOutcome>,
}

/// The report of a run that read everything: every file counts as changed.
pub open spec fn is_baseline_summary(s: ReindexSummary, files: usize) -> bool {
    &&& s.names_delta.wf()
    &&& s.changed == files
    &&& s.deleted == 0
    &&& s.changed_paths@.len() == 0
    &&& s.names_delta@.len() == 0
    &&& s.graph_mode matches GraphMode::FullFallback(reason) && reason@
        == "call_site_identity_v2"@
}

fn rows_of(files: usize) -> (r: i64)
    ensures
        r == (if files > i64::MAX {
            i64::MAX as int
        } else {
            files as int
        }),
{
    if files as u64 > i64::MAX as u64 {
        i64::MAX
    } else {
        files as i64
    }
}

/// The end of the run that brings the identities up to date, from how reading
/// everything ended and how many files are indexed after it.
pub fn rebuild_call_site_identity_baseline(
    ended: Result<PipelineOutcome, String>,
    files: usize,
) -> (r: BaselineEnd)
    ensures
        match ended {
            Ok(PipelineOutcome::Completed) => {
                &&& r.status@ == "baseline_ready"@
                &&& r.failure_reason is None
                &&& r.rows_rebuilt == (if files > i64::MAX {
                    i64::MAX as int
                } else {
                    files as int
                })
                &&& r.outcome matches Some(ReindexOutcome::Completed(s)) && is_baseline_summary(
                    s,
                    files,
                )
            },
            Ok(PipelineOutcome::Cancelled) => {
                &&& r.status@ == "failed"@
                &&& edges::opt_text(r.failure_reason) == Some("baseline cancelled"@)
                &&& r.rows_rebuilt == 0
                &&& r.outcome == Some(ReindexOutcome::Cancelled)
            },
            Err(e) => {
                &&& r.status@ == "failed"@
                &&& edges::opt_text(r.failure_reason) == Some(e@)
                &&& r.rows_rebuilt == 0
                &&& r.outcome is None
            },
        },
{
    match ended {
        Ok(PipelineOutcome::Completed) => {
            let mut s = ReindexSummary::default();
            s.changed = files;
            s.graph_mode = GraphMode::FullFallback("call_site_identity_v2".to_owned());
            BaselineEnd {
                status: "baseline_ready".to_owned(),
                failure_reason: None,
                rows_rebuilt: rows_of(files),
                outcome: Some(ReindexOutcome::Completed(s)),
            }
        },
        Ok(PipelineOutcome::Cancelled) => BaselineEnd {
            status: "failed".to_owned(),
            failure_reason: Some("baseline cancelled".to_owned()),
            rows_rebuilt: 0,
            outcome: Some(ReindexOutcome::Cancelled),
        },
        Err(e) => BaselineEnd {
            status: "failed".to_owned(),
            failure_reason: Some(e),
            rows_rebuilt: 0,
            outcome: None,
        },
    }
}

// ---------------------------------------------------------------------------
// Laws
// ---------------------------------------------------------------------------

/// However a run ends, the record still says when it was begun, and it says
/// that it completed or that it failed, never both.
pub proof fn lemma_record_of_a_run(
    prior: Option<MigrationView>,
    status: Seq<char>,
    reason: Option<Seq<char>>,
    metrics: Option<MigrationMetrics>,
    begun: i64,
    ended: i64,
)
    requires
        status == "baseline_ready"@ || status == "failed"@,
    ensures
        ({
            let started = noted(prior, "running"@, None, None, begun);
            let r = noted(Some(started), status, reason, metrics, ended);
            &&& r.started_at == Some(begun)
            &&& r.completed_at == time_if(status == "baseline_ready"@, ended)
            &&& r.failed_at == time_if(status == "failed"@, ended)
            &&& r.completed_at is Some <==> r.failed_at is None
        }),
{
    reveal_strlit("running");
    reveal_strlit("baseline_ready");
    reveal_strlit("failed");
    assert("running"@.len() == 7);
    assert("baseline_ready"@.len() == 14);
    assert("failed"@.len() == 6);
}

} // verus!
