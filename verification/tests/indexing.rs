use calm_core::cache::{is_manifest_path, maps_are_fresh, ManifestStamps, Stamp};
use calm_core::churn::{update_churn_scores, ChurnScore, FileSignal};
use calm_core::coverage_paths::COVERAGE_SEARCH_PATHS;
use calm_core::discovery::{
    collect_source_files, hash_content, rel_path, size_skip_reason, LanguageTable, WalkEntry,
    MAX_INDEXABLE_FILE_BYTES,
};
use calm_core::driver::{
    decide_path, index_row, plan_changed, GraphMode, IndexingPhase, KnownFile, PathAction,
    PipelineOutcome, ReindexOutcome, ReindexSummary, Run, RunStep, ScannedFile,
};
use calm_core::identity::StoredSite;
use calm_core::maps::TextMap;
use calm_core::migration::{
    needs_call_site_identity_baseline, rebuild_call_site_identity_baseline,
    record_call_site_identity_migration_status, MigrationMetrics,
};
use calm_core::names::NameTable;
use calm_core::types::EdgeConfidence;

fn s(x: &str) -> String {
    x.to_string()
}

fn known(path: &str, source: &str) -> KnownFile {
    KnownFile { path: s(path), hash: hash_content(source) }
}

fn scanned(path: &str, source: &str) -> ScannedFile {
    ScannedFile { path: s(path), hash: Some(hash_content(source)) }
}

fn languages() -> LanguageTable {
    let mut table = LanguageTable { languages: TextMap::new(), unparsed: NameTable::new() };
    table.languages.set("py", "python");
    table.languages.set("rs", "rust");
    table.unparsed.intern("sol");
    table.unparsed.intern("toml");
    table
}

#[test]
fn graph_mode_label_strings() {
    assert_eq!(GraphMode::Full.label(), "full");
    assert_eq!(GraphMode::Incremental.label(), "incremental");
    assert_eq!(
        GraphMode::FullFallback("delta_paths.len()=51 > 50".to_string()).label(),
        "full_fallback:delta_paths.len()=51 > 50"
    );
}

#[test]
fn test_hash_content_matches_fnv1a_64_test_vectors() {
    assert_eq!(hash_content(""), "cbf29ce484222325");
    assert_eq!(hash_content("a"), "af63dc4c8601ec8c");
    assert_eq!(hash_content("foobar"), "85944171f73967e8");
}

#[test]
fn test_hash_content_deterministic_across_calls() {
    let text = "def hello():\n    pass\n";
    assert_eq!(hash_content(text), hash_content(text));
    assert_ne!(hash_content(text), hash_content("different content"));
}

#[test]
fn every_hash_has_sixteen_digits() {
    for text in ["", "x", "caf\u{e9}", "a longer text\nwith lines\n"] {
        assert_eq!(hash_content(text).len(), 16);
    }
}

fn steps(run: &mut Run, cancelled: &[bool], noop: bool) -> Vec<RunStep> {
    cancelled.iter().map(|c| run.step(*c, noop)).collect()
}

#[test]
fn graph_generation_advances_only_after_commit() {
    let mut cancelled = Run::start(1, false);
    assert_eq!(steps(&mut cancelled, &[true, true], false), vec![RunStep::Stop, RunStep::Stop]);
    let mut full = Run::start(1, false);
    assert_eq!(
        steps(&mut full, &[false; 5], false),
        vec![
            RunStep::Begin { clear: true },
            RunStep::Batch { from: 0, to: 1 },
            RunStep::BuildGraph,
            RunStep::Commit { new_generation: true },
            RunStep::Stop,
        ]
    );
}

#[test]
fn test_phase_advances_to_ready_after_pipeline() {
    let mut run = Run::start(1, false);
    assert!(run.phase == IndexingPhase::Scanning);
    run.step(false, false);
    assert!(run.phase == IndexingPhase::Parsing);
    run.step(false, false);
    run.step(false, false);
    assert!(run.phase == IndexingPhase::BuildingEdges);
    run.step(false, false);
    assert!(run.phase == IndexingPhase::Ready);
}

#[test]
fn test_run_indexing_pipeline_empty_dir() {
    let mut run = Run::start(0, false);
    assert_eq!(
        steps(&mut run, &[false; 3], false),
        vec![
            RunStep::Begin { clear: true },
            RunStep::BuildGraph,
            RunStep::Commit { new_generation: true },
        ]
    );
}

#[test]
fn a_run_over_many_files_reads_them_in_batches() {
    let mut run = Run::start(2500, false);
    assert_eq!(
        steps(&mut run, &[false; 5], false),
        vec![
            RunStep::Begin { clear: true },
            RunStep::Batch { from: 0, to: 1000 },
            RunStep::Batch { from: 1000, to: 2000 },
            RunStep::Batch { from: 2000, to: 2500 },
            RunStep::BuildGraph,
        ]
    );
}

#[test]
fn a_cancelled_run_undoes_what_it_did() {
    let mut run = Run::start(1, false);
    assert_eq!(
        steps(&mut run, &[false, true, false], false),
        vec![RunStep::Begin { clear: true }, RunStep::Rollback, RunStep::Stop]
    );
}

#[test]
fn an_uncancelled_incremental_run_is_stored_once() {
    let mut run = Run::start(1001, true);
    assert_eq!(
        steps(&mut run, &[false; 7], false),
        vec![
            RunStep::Begin { clear: false },
            RunStep::Batch { from: 0, to: 1000 },
            RunStep::Batch { from: 1000, to: 1001 },
            RunStep::Sweep,
            RunStep::BuildGraph,
            RunStep::Commit { new_generation: true },
            RunStep::Stop,
        ]
    );
    assert!(run.phase == IndexingPhase::Ready);
}

#[test]
fn an_incremental_run_with_nothing_to_do_makes_no_generation() {
    let mut run = Run::start(0, true);
    assert_eq!(
        steps(&mut run, &[false; 3], true),
        vec![
            RunStep::Begin { clear: false },
            RunStep::Sweep,
            RunStep::Commit { new_generation: false },
        ]
    );
}

#[test]
fn test_run_indexing_pipeline_tracks_recognized_unparsed_extension_by_path_only() {
    let table = languages();
    assert!(table.recognizes("Token.sol"));
    assert_eq!(table.language("Token.sol"), None);
    assert_eq!(table.language("a.py").as_deref(), Some("python"));
    let row = index_row("Token.sol", table.language("Token.sol"), Ok(hash_content("x")), 0);
    assert_eq!(row.language, None);
    assert_eq!(row.symbol_count, 0);
    assert_eq!(row.skip_reason, None);
}

#[test]
fn test_run_indexing_pipeline_tracks_toml_as_recognized_unparsed() {
    let table = languages();
    assert!(table.recognizes("Cargo.toml"));
    assert_eq!(table.language("Cargo.toml"), None);
    assert!(!table.recognizes("picture.png"));
    assert!(!table.recognizes("Makefile"));
}

#[test]
fn only_recognized_files_are_collected() {
    let mut out = vec![s("before.py")];
    collect_source_files(
        &vec![
            WalkEntry { path: s("src/a.rs"), is_file: true },
            WalkEntry { path: s("src"), is_file: false },
            WalkEntry { path: s("dir.py"), is_file: false },
            WalkEntry { path: s("notes.txt"), is_file: true },
            WalkEntry { path: s("Cargo.toml"), is_file: true },
        ],
        &languages(),
        &mut out,
    );
    assert_eq!(out, vec!["before.py", "src/a.rs", "Cargo.toml"]);
}

#[test]
fn test_reindex_changed_does_not_delete_recognized_unparsed_file_row() {
    let plan = plan_changed(
        &vec![known("a.py", "def hello(): pass\n"), known("Token.sol", "contract Token {}\n")],
        &vec![scanned("Token.sol", "contract Token {}\n"), scanned("a.py", "def hello(): pass\n")],
    );
    assert!(plan.changed.is_empty());
    assert!(plan.deleted.is_empty());
}

#[test]
fn test_reindex_changed_does_not_delete_a_transiently_unreadable_file_row() {
    let plan = plan_changed(
        &vec![known("a.py", "def hello(): pass\n")],
        &vec![ScannedFile { path: s("a.py"), hash: None }],
    );
    assert!(plan.changed.is_empty());
    assert!(plan.deleted.is_empty());
}

#[test]
fn test_reindex_paths_only_touches_given_paths_not_whole_repo() {
    let old = Some(hash_content("def a():\n    pass\n"));
    let new = Some(hash_content("def a():\n    pass\n\ndef a2():\n    pass\n"));
    assert_eq!(decide_path(&old, true, true, &new), PathAction::Reindex);
    assert_eq!(decide_path(&old, true, true, &old), PathAction::Skip);
    assert_eq!(decide_path(&old, false, true, &None), PathAction::Delete);
    assert_eq!(decide_path(&None, false, true, &None), PathAction::Skip);
    assert_eq!(decide_path(&None, true, false, &new), PathAction::Skip);
    assert_eq!(decide_path(&old, true, true, &None), PathAction::Skip);
}

#[test]
fn read_source_capped_skips_a_file_over_the_byte_cap() {
    assert_eq!(size_skip_reason(18), None);
    assert_eq!(size_skip_reason(MAX_INDEXABLE_FILE_BYTES), None);
    let reason = size_skip_reason(MAX_INDEXABLE_FILE_BYTES + 1).unwrap();
    assert!(reason.starts_with("too_large:"));
    assert_eq!(reason, "too_large:8388609");
}

#[test]
fn run_indexing_pipeline_skips_an_oversized_file_but_still_indexes_the_rest() {
    let reason = size_skip_reason(MAX_INDEXABLE_FILE_BYTES + 1).unwrap();
    let row = index_row("huge.py", Some(s("python")), Err(reason), 7);
    assert_eq!(row.path, "huge.py");
    assert_eq!(row.symbol_count, 0);
    assert!(row.skip_reason.as_deref().is_some_and(|r| r.starts_with("too_large:")));
    let row = index_row("normal.py", Some(s("python")), Ok(hash_content("x")), 1);
    assert_eq!((row.symbol_count, row.skip_reason), (1, None));
}

#[test]
fn test_cached_resolution_maps_hits_cache_then_invalidates_on_manifest_change() {
    let at = |secs: i64| ManifestStamps {
        cargo_toml: Some(Stamp { secs, nanos: 0 }),
        cargo_lock: None,
        composer_json: None,
    };
    assert!(maps_are_fresh(10, &at(1), &at(1)));
    assert!(!maps_are_fresh(10, &at(1), &at(2)));
    assert!(!maps_are_fresh(60000, &at(1), &at(1)));
    assert!(maps_are_fresh(59999, &at(1), &at(1)));
    let none = ManifestStamps { cargo_toml: None, cargo_lock: None, composer_json: None };
    assert!(!maps_are_fresh(10, &at(1), &none));
}

#[test]
fn only_the_manifests_at_the_root_count() {
    for p in ["Cargo.toml", "Cargo.lock", "composer.json"] {
        assert!(is_manifest_path(p));
    }
    assert!(!is_manifest_path("crates/a/Cargo.toml"));
    assert!(!is_manifest_path("package.json"));
}

#[test]
fn test_reindex_recovers_after_file_externally_reverted_to_older_content() {
    let original = "def original():\n    pass\n";
    let edited = "def edited():\n    pass\n";
    let forward = plan_changed(&vec![known("a.py", original)], &vec![scanned("a.py", edited)]);
    assert_eq!((forward.changed, forward.deleted.len()), (vec![0], 0));
    let back = plan_changed(&vec![known("a.py", edited)], &vec![scanned("a.py", original)]);
    assert_eq!((back.changed, back.deleted.len()), (vec![0], 0));
}

#[test]
fn test_reindex_incremental_add_modify_delete() {
    let a = "def helper():\n    pass\n";
    let b = "def caller():\n    helper()\n";
    let same = plan_changed(&vec![known("a.py", a)], &vec![scanned("a.py", a)]);
    assert!(same.changed.is_empty() && same.deleted.is_empty());
    let added =
        plan_changed(&vec![known("a.py", a)], &vec![scanned("a.py", a), scanned("b.py", b)]);
    assert_eq!((added.changed, added.deleted.len()), (vec![1], 0));
    let gone =
        plan_changed(&vec![known("a.py", a), known("b.py", b)], &vec![scanned("a.py", a)]);
    assert_eq!((gone.changed.len(), gone.deleted), (0, vec![1]));
}

#[test]
fn a_summary_lists_what_was_touched() {
    let mut summary = ReindexSummary::default();
    assert!(summary.is_noop());
    assert_eq!(summary.graph_mode, GraphMode::Full);
    summary.note_changed("a.py", &vec![s("old")], &vec![s("new"), s("old")]);
    summary.note_deleted("Cargo.toml", &vec![s("gone")]);
    assert!(!summary.is_noop());
    assert_eq!((summary.changed, summary.deleted), (1, 1));
    assert_eq!(summary.changed_paths, vec!["a.py", "Cargo.toml"]);
    for n in ["old", "new", "gone"] {
        assert!(summary.names_delta.contains(n));
    }
    assert_eq!(summary.names_delta.len(), 3);
    assert!(summary.touches_manifest());
}

fn stored(version: i64, start: Option<i64>) -> StoredSite {
    StoredSite {
        id: 1,
        enclosing_qn: s("main.py::caller"),
        callee_start_byte: start,
        callee_end_byte: Some(24),
        callee_start_rel: None,
        callee_end_rel: None,
        identity_version: version,
        edge_kind: s("call"),
    }
}

#[test]
fn legacy_call_site_identity_forces_a_full_rebuild_even_when_hashes_match() {
    assert!(!needs_call_site_identity_baseline(&Vec::new()));
    assert!(!needs_call_site_identity_baseline(&vec![stored(3, Some(18))]));
    assert!(needs_call_site_identity_baseline(&vec![stored(3, Some(18)), stored(1, None)]));
    assert!(needs_call_site_identity_baseline(&vec![stored(2, None)]));
    let end = rebuild_call_site_identity_baseline(Ok(PipelineOutcome::Completed), 1);
    assert_eq!(end.status, "baseline_ready");
    assert_eq!(end.rows_rebuilt, 1);
    let state = record_call_site_identity_migration_status(
        &None,
        &end.status,
        end.failure_reason.as_deref(),
        Some(MigrationMetrics {
            duration_ms: 5,
            rows_rebuilt: end.rows_rebuilt,
            busy_retries: 0,
            graph_generation: Some(2),
        }),
        1000,
    );
    assert_eq!(state.status, "baseline_ready");
    assert_eq!(state.target_version, 2);
    assert_eq!(state.rows_rebuilt, Some(1));
}

#[test]
fn reindex_paths_repairs_legacy_call_site_identity_even_when_hashes_match() {
    let end = rebuild_call_site_identity_baseline(Ok(PipelineOutcome::Completed), 1);
    match end.outcome {
        Some(ReindexOutcome::Completed(summary)) => {
            assert_eq!(summary.changed, 1);
            assert_eq!(
                summary.graph_mode,
                GraphMode::FullFallback(s("call_site_identity_v2"))
            );
        }
        _ => panic!("a completed baseline is reported as such"),
    }
}

#[test]
fn cancelled_identity_baseline_preserves_legacy_graph_and_records_failure() {
    let running =
        record_call_site_identity_migration_status(&None, "running", None, None, 100);
    assert_eq!(running.started_at, Some(100));
    let end = rebuild_call_site_identity_baseline(Ok(PipelineOutcome::Cancelled), 9);
    assert!(matches!(end.outcome, Some(ReindexOutcome::Cancelled)));
    let state = record_call_site_identity_migration_status(
        &Some(running),
        &end.status,
        end.failure_reason.as_deref(),
        Some(MigrationMetrics {
            duration_ms: 12,
            rows_rebuilt: end.rows_rebuilt,
            busy_retries: 0,
            graph_generation: Some(1),
        }),
        200,
    );
    assert_eq!(state.status, "failed");
    assert_eq!(state.failure_reason.as_deref(), Some("baseline cancelled"));
    assert_eq!(state.duration_ms, Some(12));
    assert_eq!(state.rows_rebuilt, Some(0));
    assert_eq!(state.busy_retries, Some(0));
    assert_eq!(state.graph_generation, Some(1));
    assert_eq!(state.started_at, Some(100), "the start of the run is kept");
    assert_eq!((state.completed_at, state.failed_at), (None, Some(200)));
}

#[test]
fn a_failed_identity_baseline_records_the_error() {
    let end = rebuild_call_site_identity_baseline(Err(s("disk is full")), 9);
    assert_eq!(end.status, "failed");
    assert_eq!(end.failure_reason.as_deref(), Some("disk is full"));
    assert_eq!(end.rows_rebuilt, 0);
    assert!(end.outcome.is_none());
}

#[test]
fn numbers_that_are_not_given_stay_as_they_were() {
    let first = record_call_site_identity_migration_status(
        &None,
        "failed",
        Some("x"),
        Some(MigrationMetrics {
            duration_ms: 1,
            rows_rebuilt: 2,
            busy_retries: 3,
            graph_generation: Some(4),
        }),
        10,
    );
    let second =
        record_call_site_identity_migration_status(&Some(first), "running", None, None, 20);
    assert_eq!(second.duration_ms, Some(1));
    assert_eq!(second.graph_generation, Some(4));
    assert_eq!(second.failure_reason, None);
    assert_eq!((second.started_at, second.failed_at), (Some(20), None));
}

fn signal(path: &str, commit_count: u64) -> FileSignal {
    FileSignal { path: s(path), commit_count }
}

#[test]
fn test_git_unavailable_sets_null_not_zero() {
    let scores = update_churn_scores(&vec![s("a.py")], &vec![signal("a.py", 3)], false);
    assert_eq!(scores, vec![None]);
}

#[test]
fn test_unchanged_file_gets_zero_not_null_when_git_available() {
    let scores =
        update_churn_scores(&vec![s("hot.py"), s("cold.py")], &vec![signal("hot.py", 1)], true);
    assert_eq!(
        scores,
        vec![Some(ChurnScore { count: 1, out_of: 1 }), Some(ChurnScore { count: 0, out_of: 1 })]
    );
}

#[test]
fn test_normalizes_relative_to_max_commit_count() {
    let scores = update_churn_scores(
        &vec![s("busy.py"), s("quiet.py")],
        &vec![signal("busy.py", 3), signal("quiet.py", 1)],
        true,
    );
    let value = |i: usize| {
        let score: ChurnScore = scores[i].unwrap();
        score.count as f64 / score.out_of as f64
    };
    assert_eq!(value(0), 1.0);
    assert!((value(1) - 1.0 / 3.0).abs() < 1e-9);
}

#[test]
fn a_project_without_commits_scores_zero() {
    let scores = update_churn_scores(&vec![s("a.py")], &Vec::new(), true);
    assert_eq!(scores, vec![Some(ChurnScore { count: 0, out_of: 1 })]);
}

#[test]
fn paths_are_stored_with_forward_slashes() {
    assert_eq!(rel_path("src\\a\\b.rs"), "src/a/b.rs");
    assert_eq!(rel_path("src/a/b.rs"), "src/a/b.rs");
}

#[test]
fn coverage_reports_are_looked_for_in_order() {
    assert_eq!(COVERAGE_SEARCH_PATHS[0], ("lcov.info", "lcov"));
    assert_eq!(COVERAGE_SEARCH_PATHS[3], (".coverage", "python"));
    assert_eq!(COVERAGE_SEARCH_PATHS[7], ("coverage/coverage.xml", "cobertura"));
}

#[test]
fn confidences_are_ranked() {
    assert_eq!(EdgeConfidence::parse("formal"), Some(EdgeConfidence::Formal));
    assert_eq!(EdgeConfidence::parse("nonsense"), None);
    assert_eq!(EdgeConfidence::Ambiguous.as_str(), "ambiguous");
    assert!(EdgeConfidence::Resolved.is_verified());
    assert!(!EdgeConfidence::Inferred.is_verified());
    assert!(EdgeConfidence::Formal.rank() > EdgeConfidence::Textual.rank());
}
