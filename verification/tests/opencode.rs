//! Session databases and the transcripts they supersede.

use memex_refresh::keys::{TextMap, TextSet};
use memex_refresh::opencode::{
    hydration_sessions, resolve_owners, DatabaseInspection, DatabaseOutcome, DatabaseStat,
    DatabaseStep, ListedSession, ReadyDatabase, SessionScope,
};
use memex_refresh::path::FilePath;
use memex_refresh::scopes::{
    legacy_candidates, legacy_step, plan_database_deletes, plan_deferred, plan_ready, plan_targets,
    supersede, LegacyFile, LegacyStep,
};
use memex_refresh::sorted::{SortedMap, SortedSet};
use memex_refresh::state::{FileIdentity, FileState, OpencodeDatabaseState};

fn set(ids: &[&str]) -> TextSet {
    let mut set: TextSet = SortedSet::new();
    for id in ids {
        set.insert(id.to_string());
    }
    set
}

fn texts(ids: &[&str]) -> Vec<String> {
    ids.iter().map(|id| id.to_string()).collect()
}

fn owning(ids: &[&str]) -> OpencodeDatabaseState {
    OpencodeDatabaseState {
        parser_version: 1,
        event_rowid: 2,
        event_id: None,
        owned_session_ids: set(ids),
    }
}

fn previous(databases: &[(&str, &[&str])]) -> TextMap<OpencodeDatabaseState> {
    let mut map: TextMap<OpencodeDatabaseState> = SortedMap::new();
    for (path, ids) in databases {
        map.insert(path.to_string(), owning(ids));
    }
    map
}

fn outcomes(list: &[(&str, DatabaseOutcome)]) -> TextMap<DatabaseOutcome> {
    let mut map: TextMap<DatabaseOutcome> = SortedMap::new();
    for (path, outcome) in list {
        map.insert(path.to_string(), *outcome);
    }
    map
}

fn ready(path: &str, ids: &[&str], dirty: &[&str]) -> ReadyDatabase {
    ReadyDatabase {
        path: path.to_string(),
        sessions: ids
            .iter()
            .map(|id| ListedSession {
                id: id.to_string(),
                directory: format!("/work/{id}"),
            })
            .collect(),
        dirty_session_ids: texts(dirty),
        event_rowid: 77,
        event_id: Some("event".to_string()),
    }
}

fn scope(path: &str, id: &str) -> SessionScope {
    SessionScope {
        source_path: path.to_string(),
        session_id: id.to_string(),
    }
}

fn pairs(scopes: &[SessionScope]) -> Vec<(&str, &str)> {
    scopes
        .iter()
        .map(|scope| (scope.source_path.as_str(), scope.session_id.as_str()))
        .collect()
}

#[test]
fn a_full_scan_goes_on_whatever_happens() {
    let mut inspection = DatabaseInspection::new(true);
    let key = |text: &str| text.to_string();
    inspection.excluded();
    assert_eq!(
        inspection.looked_up(&key("a"), DatabaseStat::Present(10)),
        DatabaseStep::Proceed
    );
    assert_eq!(
        inspection.scanned(&key("a"), Some(&texts(&["s"])), None),
        DatabaseStep::Proceed
    );
    assert_eq!(inspection.hydrated(&key("a"), true), DatabaseStep::Proceed);
    assert_eq!(
        inspection.looked_up(&key("b"), DatabaseStat::Missing),
        DatabaseStep::Skip
    );
    assert_eq!(
        inspection.looked_up(&key("c"), DatabaseStat::Failed),
        DatabaseStep::Skip
    );
    assert_eq!(
        inspection.looked_up(&key("d"), DatabaseStat::Present(5)),
        DatabaseStep::Proceed
    );
    assert_eq!(inspection.scanned(&key("d"), None, None), DatabaseStep::Skip);
    assert_eq!(
        inspection.looked_up(&key("e"), DatabaseStat::Present(1)),
        DatabaseStep::Proceed
    );
    assert_eq!(
        inspection.scanned(&key("e"), Some(&texts(&[])), None),
        DatabaseStep::Proceed
    );
    assert_eq!(inspection.hydrated(&key("e"), false), DatabaseStep::Skip);
    assert_eq!(inspection.totals(), (3, 5, 16));
    for (path, outcome) in [
        ("a", DatabaseOutcome::Ready),
        ("b", DatabaseOutcome::Failed),
        ("c", DatabaseOutcome::Failed),
        ("d", DatabaseOutcome::Failed),
        ("e", DatabaseOutcome::Failed),
    ] {
        assert_eq!(inspection.outcomes().get(&key(path)), Some(&outcome));
        assert!(inspection.discovered().contains(&key(path)));
    }
}

#[test]
fn a_selection_ends_in_a_full_scan_or_an_error() {
    let key = "a".to_string();
    let mut inspection = DatabaseInspection::new(false);
    assert_eq!(
        inspection.looked_up(&key, DatabaseStat::Missing),
        DatabaseStep::Resync
    );
    let mut inspection = DatabaseInspection::new(false);
    assert_eq!(
        inspection.looked_up(&key, DatabaseStat::Failed),
        DatabaseStep::Fail
    );
    let mut inspection = DatabaseInspection::new(false);
    inspection.looked_up(&key, DatabaseStat::Present(1));
    assert_eq!(inspection.scanned(&key, None, None), DatabaseStep::Fail);
    assert_eq!(
        inspection.scanned(&key, Some(&texts(&["s"])), None),
        DatabaseStep::Resync
    );
    assert_eq!(
        inspection.scanned(&key, Some(&texts(&["s"])), Some(&owning(&["t"]))),
        DatabaseStep::Resync
    );
    assert_eq!(
        inspection.scanned(&key, Some(&texts(&["t", "s", "t"])), Some(&owning(&["s", "t"]))),
        DatabaseStep::Proceed
    );
    assert_eq!(inspection.hydrated(&key, false), DatabaseStep::Fail);
    assert_eq!(inspection.hydrated(&key, true), DatabaseStep::Proceed);
}

#[test]
fn pending_sessions_are_read_again() {
    let dirty = texts(&["z", "a", "z"]);
    let path = "db".to_string();
    assert_eq!(hydration_sessions(&dirty, None, &path), ["z", "a", "z"]);
    let pending = vec![scope("db", "m"), scope("other", "x"), scope("db", "a")];
    assert_eq!(
        hydration_sessions(&dirty, Some(&pending), &path),
        ["a", "m", "z"]
    );
}

#[test]
fn unreadable_databases_keep_their_sessions() {
    let before = previous(&[("failed", &["shared", "own"]), ("gone", &["lost"])]);
    let classified = outcomes(&[
        ("failed", DatabaseOutcome::Failed),
        ("gone", DatabaseOutcome::ConfirmedAbsent),
    ]);
    let databases = vec![
        ready("first", &["shared", "one"], &[]),
        ready("second", &["one", "two"], &[]),
    ];
    let owners = resolve_owners(&before, &classified, &databases);
    let owner = |id: &str| owners.get(&id.to_string()).map(String::as_str);
    assert_eq!(owner("shared"), Some("failed"));
    assert_eq!(owner("own"), Some("failed"));
    assert_eq!(owner("one"), Some("first"));
    assert_eq!(owner("two"), Some("second"));
    assert_eq!(owner("lost"), None);
}

#[test]
fn sessions_are_replaced_where_they_moved_changed_or_were_pending() {
    let before = previous(&[
        ("a", &["moved", "kept"]),
        ("failed", &["safe"]),
        ("gone", &["lost"]),
    ]);
    let classified = outcomes(&[
        ("a", DatabaseOutcome::Ready),
        ("failed", DatabaseOutcome::Failed),
        ("gone", DatabaseOutcome::ConfirmedAbsent),
    ]);
    let databases = vec![
        ready("a", &["kept"], &["kept"]),
        ready("b", &["moved", "safe"], &["safe", "moved"]),
    ];
    let owners = resolve_owners(&before, &classified, &databases);
    let pending = vec![
        scope("failed", "p"),
        scope("a", "q"),
        scope("a", "kept"),
    ];
    let seen = outcomes(&[
        ("a", DatabaseOutcome::Ready),
        ("b", DatabaseOutcome::Ready),
        ("failed", DatabaseOutcome::Failed),
    ]);
    let targets = plan_targets(
        &before,
        &classified,
        &seen,
        &owners,
        &databases,
        Some(&pending),
    );
    assert_eq!(
        pairs(&targets),
        [("a", "kept"), ("a", "moved"), ("a", "q"), ("b", "moved")]
    );
    assert_eq!(plan_database_deletes(&before, &classified), ["gone"]);
    let deferred = plan_deferred(&pending, true, &classified);
    assert_eq!(pairs(&deferred), [("failed", "p")]);
    let untouched = plan_deferred(&pending, false, &classified);
    assert_eq!(pairs(&untouched), pairs(&pending));
}

#[test]
fn databases_record_what_they_own() {
    let before = previous(&[]);
    let databases = vec![
        ready("a", &["one", "two"], &[]),
        ready("b", &["two", "three"], &[]),
    ];
    let owners = resolve_owners(&before, &outcomes(&[]), &databases);
    let plan = plan_ready(&databases, &owners, 9);
    let owned = |path: &str| plan.owned_sessions.get(&path.to_string()).unwrap().list();
    assert_eq!(owned("a"), ["one", "two"]);
    assert_eq!(owned("b"), ["three"]);
    let state = plan.database_states.get(&"b".to_string()).unwrap();
    assert_eq!(state.parser_version, 9);
    assert_eq!(state.event_rowid, 77);
    assert_eq!(state.event_id, Some("event".to_string()));
    assert_eq!(state.owned_session_ids.list(), ["three"]);
    assert_eq!(
        plan.session_cwds.get(&scope("a", "two")),
        Some(&"/work/two".to_string())
    );
    assert_eq!(plan.session_cwds.get(&scope("b", "two")), None);
    assert_eq!(plan.session_cwds.len(), 3);
}

fn legacy(text: &[u8], excluded: bool) -> LegacyFile {
    LegacyFile {
        path: FilePath::new(text.to_vec()),
        excluded,
    }
}

#[test]
fn databases_supersede_single_file_transcripts() {
    let databases = vec![ready("db", &["one", ""], &[])];
    let owners = resolve_owners(&previous(&[]), &outcomes(&[]), &databases);
    assert_eq!(
        legacy_step(&legacy(b"/store/one", true), &owners),
        LegacyStep::Skip
    );
    assert_eq!(
        legacy_step(&legacy(b"/store/one", false), &owners),
        LegacyStep::Supersede
    );
    assert_eq!(
        legacy_step(&legacy(b"/store/two", false), &owners),
        LegacyStep::Inspect
    );
    // A name that is no text counts for the empty session.
    assert_eq!(
        legacy_step(&legacy(b"/store/\xff", false), &owners),
        LegacyStep::Supersede
    );
    let files = vec![
        legacy(b"/store/one", false),
        legacy(b"/other/one", true),
        legacy(b"/store/two", false),
        legacy(b"/store/\xff", false),
    ];
    assert_eq!(legacy_candidates(&files, &owners).list(), ["/store/one"]);
}

#[test]
fn superseded_transcripts_lose_their_state_and_their_records() {
    let mut files: TextMap<FileState> = SortedMap::new();
    files.insert(
        "/store/one".to_string(),
        FileState {
            size: 1,
            mtime: 1,
            offset: 1,
            turn_id: 1,
            legacy_turn_id: None,
            claude_background: None,
            parser_version: 1,
            pending_tool_calls: SortedMap::new(),
            identity: FileIdentity::default(),
            codex_metadata_offsets: None,
        },
    );
    let mut deletes = Vec::new();
    let recorded = set(&["/store/two"]);
    for name in ["/store/one", "/store/two", "/store/three"] {
        let path = FilePath::new(name.as_bytes().to_vec());
        supersede(&mut files, &mut deletes, &path, &recorded);
    }
    assert_eq!(files.len(), 0);
    assert_eq!(deletes, ["/store/one", "/store/two"]);
}

#[test]
fn totals_beyond_the_machine_are_noticed() {
    let mut inspection = DatabaseInspection::new(true);
    assert!(inspection.fits(u64::MAX));
    inspection.looked_up(&"a".to_string(), DatabaseStat::Present(1));
    assert_eq!(inspection.totals(), (1, 0, 1));
    assert!(inspection.fits(u64::MAX - 1));
    assert!(!inspection.fits(u64::MAX));
}
