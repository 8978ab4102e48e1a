//! What a refresh has to do, and when it can be left out.

use memex_refresh::exclude::PathExcluder;
use memex_refresh::files::{FileChange, FileTask, SourceKind};
use memex_refresh::keys::{TextMap, TextSet};
use memex_refresh::opencode::{DatabaseOutcome, SessionScope};
use memex_refresh::path::FilePath;
use memex_refresh::refresh::{
    drop_excluded, drop_removed, excluded_sources, plan_scan, prepare_refresh, probed,
    totals_fit, trusts_changes, update_identities, Discovered, FileProbe, PendingIngest,
    RefreshStart, ScanPlan,
};
use memex_refresh::skip::{
    fresh_step, noop_step, record_needs_embedding, still_covered,
    vector_index_covers_embeddable_records, vector_migration, DatabaseListing, FreshFacts,
    FreshStep, NoopStep, RecordCoverage, VectorFacts,
};
use memex_refresh::sorted::{SortedMap, SortedSet};
use memex_refresh::state::{FileIdentity, FileState, IngestState, OpencodeDatabaseState};
use memex_refresh::transcripts::TranscriptDiscovery;

fn texts(list: &[&str]) -> Vec<String> {
    list.iter().map(|text| text.to_string()).collect()
}

fn set(list: &[&str]) -> TextSet {
    SortedSet::from_list(&texts(list))
}

fn identity(inode: u64) -> FileIdentity {
    FileIdentity {
        inode: Some(inode),
        ..FileIdentity::default()
    }
}

fn file(inode: u64) -> FileState {
    FileState {
        size: 1,
        mtime: 2,
        offset: 3,
        turn_id: 4,
        legacy_turn_id: None,
        claude_background: None,
        parser_version: 5,
        pending_tool_calls: SortedMap::new(),
        identity: identity(inode),
        codex_metadata_offsets: None,
    }
}

fn files(paths: &[&str]) -> TextMap<FileState> {
    let mut map: TextMap<FileState> = SortedMap::new();
    for path in paths {
        map.insert(path.to_string(), file(1));
    }
    map
}

fn task(path: &str, change: FileChange) -> FileTask {
    FileTask {
        path: FilePath::new(path.as_bytes().to_vec()),
        source: SourceKind::Pi,
        offset: 0,
        turn_id: 0,
        legacy_turn_id: None,
        size: 10,
        mtime: 0,
        change,
        pending_tool_calls: SortedMap::new(),
        identity: FileIdentity::default(),
        parser_version: 1,
        codex_metadata_offsets: None,
        claude_background: None,
    }
}

fn database(row: i64) -> OpencodeDatabaseState {
    OpencodeDatabaseState {
        parser_version: 1,
        event_rowid: row,
        event_id: None,
        owned_session_ids: SortedSet::new(),
    }
}

fn nothing_found() -> TranscriptDiscovery {
    TranscriptDiscovery {
        tasks: vec![],
        unchanged_identities: vec![],
        files_scanned: 0,
        files_skipped: 0,
        total_bytes: 0,
        session_ids: SortedSet::new(),
    }
}

fn unreported() -> RefreshStart {
    RefreshStart {
        reported: false,
        empty_index_rebuild: false,
        state_exists: true,
        selected: false,
    }
}

fn reported() -> RefreshStart {
    RefreshStart {
        reported: true,
        selected: true,
        ..unreported()
    }
}

fn everything() -> ScanPlan {
    plan_scan(&unreported(), false, true)
}

fn discovered() -> Discovered {
    Discovered {
        start: unreported(),
        inventory: None,
        pending: None,
        pending_databases: SortedSet::new(),
        transcripts: nothing_found(),
        databases: (0, 0, 0),
        legacy: nothing_found(),
        outcomes: SortedMap::new(),
        database_states: SortedMap::new(),
        database_deletes: vec![],
        legacy_deletes: vec![],
        removed: vec![],
        excluded_state: vec![],
        excluded_index: vec![],
        vectors_exist: false,
    }
}

fn pending() -> PendingIngest {
    PendingIngest {
        source_paths: vec![],
        session_scopes: vec![],
        vector_delete_paths: vec![],
        vector_publication: false,
        embedding_publication: None,
    }
}

#[test]
fn changes_are_trusted_only_on_a_sound_state() {
    assert!(trusts_changes(true, false, false, true));
    assert!(!trusts_changes(false, false, false, true));
    assert!(!trusts_changes(true, true, false, true));
    assert!(!trusts_changes(true, false, true, true));
    assert!(!trusts_changes(true, false, false, false));
}

#[test]
fn excluded_files_lose_their_state() {
    let excluder = PathExcluder::build(&texts(&["**/private/**"])).ok().unwrap();
    let mut known = files(&["/a/private/x", "/a/public/y", "/link/z"]);
    let mut canonical: TextMap<Vec<u8>> = SortedMap::new();
    canonical.insert("/link/z".to_string(), b"/a/private/z".to_vec());
    canonical.insert("/a/public/y".to_string(), b"/a/public/y".to_vec());
    let dropped = drop_excluded(&mut known, &everything(), &excluder, &canonical);
    assert_eq!(dropped, ["/a/private/x", "/link/z"]);
    assert_eq!(known.key_list(), ["/a/public/y"]);
    let sources = texts(&["/a/private/q", "/b", "/a/private/q", "/a/private/b"]);
    let none: TextMap<Vec<u8>> = SortedMap::new();
    assert_eq!(
        excluded_sources(&sources, &everything(), &excluder, &none),
        ["/a/private/b", "/a/private/q"]
    );
}

#[test]
fn unreachable_files_keep_their_state() {
    assert_eq!(probed(true, true), FileProbe::Removed);
    assert_eq!(probed(true, false), FileProbe::Unreachable);
    assert_eq!(probed(false, true), FileProbe::Other);
    let mut known = files(&["gone", "unmounted", "there", "unseen"]);
    let mut probes: TextMap<FileProbe> = SortedMap::new();
    probes.insert("gone".to_string(), FileProbe::Removed);
    probes.insert("unmounted".to_string(), FileProbe::Unreachable);
    probes.insert("there".to_string(), FileProbe::Other);
    probes.insert("foreign".to_string(), FileProbe::Removed);
    assert_eq!(drop_removed(&mut known, &everything(), &probes), ["gone"]);
    assert_eq!(known.key_list(), ["there", "unmounted", "unseen"]);
}

#[test]
fn identities_are_all_that_changes() {
    let mut known = files(&["a", "b"]);
    let same = vec![("a".to_string(), identity(1)), ("zz".to_string(), identity(9))];
    assert!(!update_identities(&mut known, &same));
    assert_eq!(known.len(), 2);
    let changed = vec![("b".to_string(), identity(7))];
    assert!(update_identities(&mut known, &changed));
    let b = known.get(&"b".to_string()).unwrap();
    assert_eq!(b.identity.inode, Some(7));
    assert_eq!(b.offset, 3);
}

#[test]
fn a_quiet_refresh_does_nothing() {
    let prepared = prepare_refresh(IngestState::default(), discovered());
    assert!(prepared.tasks.is_empty() && prepared.delete_paths.is_empty());
    assert_eq!(prepared.vector_delete_paths.len(), 0);
    assert!(!prepared.recover_embeddings);
    assert!(!prepared.reconcile_pending_vector_ids);
    assert!(!prepared.recover_vector_cleanup);
    assert!(!prepared.opencode_database_state_changed);
    assert!(!prepared.identities_changed);
}

#[test]
fn removed_records_lose_their_vectors() {
    let mut state = IngestState::default();
    state.files = files(&["kept"]);
    state.opencode_databases.insert("gone.db".to_string(), database(1));
    state.opencode_databases.insert("kept.db".to_string(), database(2));
    let mut found = discovered();
    found.transcripts.tasks = vec![
        task("/replaced", FileChange::Replaced),
        task("/appended", FileChange::Append),
    ];
    found.transcripts.files_scanned = 3;
    found.transcripts.files_skipped = 1;
    found.transcripts.total_bytes = 20;
    found.transcripts.unchanged_identities = vec![("kept".to_string(), identity(8))];
    found.transcripts.session_ids = set(&["s"]);
    found.databases = (2, 1, 30);
    found.legacy.tasks = vec![task("/legacy", FileChange::ParserChanged)];
    found.legacy.files_scanned = 1;
    found.legacy.total_bytes = 10;
    found.database_deletes = texts(&["gone.db"]);
    found.database_states.insert("new.db".to_string(), database(3));
    found.legacy_deletes = texts(&["/old"]);
    found.removed = texts(&["/removed"]);
    found.excluded_state = texts(&["/hidden", "/old"]);
    found.excluded_index = texts(&["/indexed"]);
    assert!(totals_fit(&found));
    let prepared = prepare_refresh(state, found);
    let expected = [
        "/hidden",
        "/indexed",
        "/legacy",
        "/old",
        "/removed",
        "/replaced",
        "gone.db",
    ];
    assert_eq!(prepared.delete_paths, expected);
    assert_eq!(prepared.vector_delete_paths.list(), expected);
    assert_eq!(prepared.tasks.len(), 3);
    assert_eq!(prepared.files_scanned, 6);
    assert_eq!(prepared.files_skipped, 4);
    assert_eq!(prepared.total_bytes, 60);
    assert_eq!(prepared.session_ids.list(), ["s"]);
    assert_eq!(
        prepared.installed_opencode_states.key_list(),
        ["kept.db", "new.db"]
    );
    assert!(prepared.opencode_database_state_changed);
    assert!(prepared.identities_changed);
    let kept = prepared.state.files.get(&"kept".to_string()).unwrap();
    assert_eq!(kept.identity.inode, Some(8));
}

#[test]
fn interrupted_refreshes_are_recovered() {
    let mut found = discovered();
    let mut left = pending();
    left.source_paths = texts(&["/x", "a.db"]);
    left.vector_delete_paths = texts(&["/v"]);
    found.pending = Some(left);
    found.pending_databases = set(&["a.db"]);
    let prepared = prepare_refresh(IngestState::default(), found);
    assert_eq!(prepared.delete_paths, ["/x", "a.db"]);
    assert_eq!(prepared.vector_delete_paths.list(), ["/v", "a.db"]);
    assert!(prepared.recover_vector_cleanup);
    assert!(!prepared.recover_embeddings);
    assert!(!prepared.reconcile_pending_vector_ids);
}

#[test]
fn sessions_of_read_databases_are_cleaned_up() {
    for (outcome, expected) in [
        (DatabaseOutcome::Ready, true),
        (DatabaseOutcome::Failed, false),
        (DatabaseOutcome::Planned, false),
    ] {
        let mut found = discovered();
        let mut left = pending();
        left.session_scopes = vec![SessionScope {
            source_path: "a.db".to_string(),
            session_id: "s".to_string(),
        }];
        found.pending = Some(left);
        found.outcomes.insert("a.db".to_string(), outcome);
        let prepared = prepare_refresh(IngestState::default(), found);
        assert_eq!(prepared.recover_vector_cleanup, expected);
    }
}

#[test]
fn embeddings_are_recovered_where_they_may_be_lost() {
    let run = |left: PendingIngest, vectors_exist: bool| {
        let mut found = discovered();
        found.transcripts.tasks = vec![task("/replayed", FileChange::Append)];
        found.vectors_exist = vectors_exist;
        found.pending = Some(left);
        prepare_refresh(IngestState::default(), found)
    };
    let mut old = pending();
    old.vector_publication = true;
    let prepared = run(old, false);
    assert!(prepared.recover_embeddings && prepared.reconcile_pending_vector_ids);
    let mut deleting = pending();
    deleting.vector_publication = true;
    deleting.embedding_publication = Some(false);
    let prepared = run(deleting, true);
    assert!(!prepared.recover_embeddings && prepared.reconcile_pending_vector_ids);
    let mixed = || {
        let mut left = pending();
        left.vector_publication = true;
        left.embedding_publication = Some(false);
        left.source_paths = texts(&["/replayed"]);
        left
    };
    assert!(run(mixed(), true).recover_embeddings);
    assert!(!run(mixed(), false).recover_embeddings);
    let mut removed = mixed();
    removed.vector_delete_paths = texts(&["/replayed"]);
    assert!(!run(removed, true).recover_embeddings);
    let mut embedding = pending();
    embedding.embedding_publication = Some(true);
    let prepared = run(embedding, false);
    assert!(prepared.recover_embeddings && !prepared.reconcile_pending_vector_ids);
}

#[test]
fn totals_that_do_not_fit_are_noticed() {
    let mut found = discovered();
    found.transcripts.total_bytes = u64::MAX;
    assert!(totals_fit(&found));
    found.databases = (0, 0, 1);
    assert!(!totals_fit(&found));
}

#[test]
fn a_fresh_scan_is_left_out_only_where_everything_holds() {
    let mut facts = FreshFacts {
        pending: false,
        include_opencode: true,
        databases: None,
        documents: None,
        fresh: None,
        analytics_complete: None,
    };
    assert_eq!(fresh_step(&facts), FreshStep::ListDatabases);
    facts.databases = Some(DatabaseListing::Failed);
    assert_eq!(fresh_step(&facts), FreshStep::Scan);
    facts.databases = Some(DatabaseListing::Found(1));
    assert_eq!(fresh_step(&facts), FreshStep::Scan);
    facts.databases = Some(DatabaseListing::Found(0));
    assert_eq!(fresh_step(&facts), FreshStep::CountDocuments);
    facts.documents = Some(0);
    assert_eq!(fresh_step(&facts), FreshStep::Scan);
    facts.documents = Some(5);
    assert_eq!(fresh_step(&facts), FreshStep::CheckCache);
    facts.fresh = Some(false);
    assert_eq!(fresh_step(&facts), FreshStep::Scan);
    facts.fresh = Some(true);
    assert_eq!(fresh_step(&facts), FreshStep::CheckAnalytics);
    facts.analytics_complete = Some(false);
    assert_eq!(fresh_step(&facts), FreshStep::Scan);
    facts.analytics_complete = Some(true);
    assert_eq!(fresh_step(&facts), FreshStep::CheckVectors);
    facts.pending = true;
    assert_eq!(fresh_step(&facts), FreshStep::Scan);
    facts.pending = false;
    facts.include_opencode = false;
    facts.databases = None;
    assert_eq!(fresh_step(&facts), FreshStep::CheckVectors);
}

#[test]
fn the_index_is_left_alone_where_its_vectors_cover_it() {
    let model = "small".to_string();
    let vectors = |exists, opened, covered| VectorFacts {
        exists,
        opened,
        covered,
    };
    let small = || Some((Some("small".to_string()), 384));
    let step = |embeddings, dimensions, facts: VectorFacts| {
        noop_step(embeddings, &model, dimensions, &facts)
    };
    assert_eq!(step(false, None, vectors(false, None, None)), NoopStep::Skip);
    assert_eq!(step(true, None, vectors(true, None, None)), NoopStep::Refresh);
    assert_eq!(
        step(true, Some(384), vectors(false, None, None)),
        NoopStep::Refresh
    );
    assert_eq!(
        step(true, Some(384), vectors(true, None, None)),
        NoopStep::OpenVectors
    );
    assert_eq!(
        step(true, Some(384), vectors(true, small(), None)),
        NoopStep::CheckCoverage
    );
    assert_eq!(
        step(true, Some(384), vectors(true, small(), Some(true))),
        NoopStep::Skip
    );
    assert_eq!(
        step(true, Some(384), vectors(true, small(), Some(false))),
        NoopStep::Refresh
    );
    assert_eq!(
        step(true, Some(768), vectors(true, small(), Some(true))),
        NoopStep::Refresh
    );
    assert_eq!(
        step(true, Some(384), vectors(true, Some((None, 384)), Some(true))),
        NoopStep::Refresh
    );
}

#[test]
fn records_without_text_need_no_embedding() {
    assert!(record_needs_embedding(true, "text"));
    assert!(!record_needs_embedding(true, ""));
    assert!(!record_needs_embedding(false, "text"));
    let record = |embedding_role, text: &str, embedded| RecordCoverage {
        embedding_role,
        text: text.to_string(),
        embedded,
    };
    assert!(vector_index_covers_embeddable_records(&vec![
        record(true, "a", true),
        record(true, "", false),
        record(false, "b", false),
    ]));
    assert!(!vector_index_covers_embeddable_records(&vec![
        record(true, "a", true),
        record(true, "b", false),
    ]));
    assert!(still_covered(true, &record(true, "a", true)));
    assert!(still_covered(true, &record(true, "", false)));
    assert!(!still_covered(true, &record(true, "b", false)));
    assert!(!still_covered(false, &record(true, "a", true)));
}

#[test]
fn a_changed_parser_rebuilds_the_vectors_with_their_model() {
    let configured = "new".to_string();
    let recorded = "old".to_string();
    let changed = vec![
        task("/a", FileChange::Append),
        task("/b", FileChange::ParserChanged),
    ];
    let migration = vector_migration(true, Some(&recorded), &changed, &configured);
    assert!(migration.rebuild);
    assert_eq!(migration.model, "old");
    let migration = vector_migration(true, None, &changed, &configured);
    assert!(migration.rebuild);
    assert_eq!(migration.model, "new");
    let migration = vector_migration(false, Some(&recorded), &changed, &configured);
    assert!(!migration.rebuild);
    assert_eq!(migration.model, "new");
    let same = vec![task("/a", FileChange::Append)];
    assert!(!vector_migration(true, Some(&recorded), &same, &configured).rebuild);
}

#[test]
fn everything_is_scanned_unless_changes_can_be_trusted() {
    assert!(!plan_scan(&reported(), false, true).full_scan);
    assert!(plan_scan(&unreported(), false, true).full_scan);
    assert!(plan_scan(&reported(), true, true).full_scan);
    for start in [
        RefreshStart {
            empty_index_rebuild: true,
            ..reported()
        },
        RefreshStart {
            state_exists: false,
            ..reported()
        },
        RefreshStart {
            selected: false,
            ..reported()
        },
    ] {
        let plan = plan_scan(&start, false, false);
        assert!(plan.full_scan && plan.drops_excluded && plan.lists_sessions);
        assert!(plan.probes_files && plan.records_scan && !plan.checks_index);
    }
}

#[test]
fn partial_scans_keep_every_file() {
    let plan = plan_scan(&reported(), false, true);
    let excluder = PathExcluder::build(&texts(&["**"])).ok().unwrap();
    let mut known = files(&["/a", "/b"]);
    let none: TextMap<Vec<u8>> = SortedMap::new();
    assert!(drop_excluded(&mut known, &plan, &excluder, &none).is_empty());
    let mut probes: TextMap<FileProbe> = SortedMap::new();
    probes.insert("/a".to_string(), FileProbe::Removed);
    assert!(drop_removed(&mut known, &plan, &probes).is_empty());
    assert!(excluded_sources(&texts(&["/a"]), &plan, &excluder, &none).is_empty());
    assert_eq!(known.key_list(), ["/a", "/b"]);

    let mut found = discovered();
    found.start = reported();
    let prepared = prepare_refresh(IngestState::default(), found);
    assert!(!prepared.full_scan && prepared.scan.is_none());
    assert!(!prepared.recovering_pending_ingest && !prepared.empty_index_rebuild);
    let mut found = discovered();
    found.start = reported();
    found.pending = Some(pending());
    let prepared = prepare_refresh(IngestState::default(), found);
    assert!(prepared.full_scan && prepared.recovering_pending_ingest);
    assert!(prepared.scan.is_some_and(|scan| scan.directory_inventory.is_none()));
}
