//! Checkpoint sessions: what they see, and what they commit.

use memex_refresh::checkpoint::CheckpointHeader;
use memex_refresh::keys::TextMap;
use memex_refresh::model::Modeled;
use memex_refresh::session::CheckpointSession;
use memex_refresh::sorted::{SortedMap, SortedSet};
use memex_refresh::state::{FileIdentity, FileState, OpencodeDatabaseState};

fn file(offset: u64) -> FileState {
    FileState {
        size: 1,
        mtime: 2,
        offset,
        turn_id: 4,
        legacy_turn_id: None,
        claude_background: None,
        parser_version: 5,
        pending_tool_calls: SortedMap::new(),
        identity: FileIdentity::default(),
        codex_metadata_offsets: None,
    }
}

fn texts(list: &[&str]) -> Vec<String> {
    list.iter().map(|text| text.to_string()).collect()
}

/// A store, as far as a session needs one.
struct Store {
    next_doc_id: u64,
    files: TextMap<FileState>,
    databases: TextMap<OpencodeDatabaseState>,
    commits: usize,
}

impl Store {
    fn new(files: &[(&str, u64)]) -> Store {
        let mut map: TextMap<FileState> = SortedMap::new();
        for (path, offset) in files {
            map.insert(path.to_string(), file(*offset));
        }
        Store {
            next_doc_id: 1,
            files: map,
            databases: SortedMap::new(),
            commits: 0,
        }
    }

    fn session(&self) -> CheckpointSession {
        CheckpointSession::open(CheckpointHeader {
            next_doc_id: self.next_doc_id,
            opencode_databases: self.databases.duplicate(),
        })
    }

    fn preload(&self, session: &mut CheckpointSession, paths: &[&str]) {
        let paths = texts(paths);
        let mut found: TextMap<FileState> = SortedMap::new();
        for path in session.missing(&paths) {
            if let Some(file) = self.files.get(&path) {
                found.insert(path, file.duplicate());
            }
        }
        session.preload(&paths, &found);
    }

    fn commit(&mut self, session: &mut CheckpointSession) -> bool {
        let delta = session.prepare_commit();
        if !delta.is_empty() {
            if delta.clear_files {
                self.files = SortedMap::new();
            }
            self.files.remove_all(&delta.deletes.list());
            self.files.extend(&delta.upserts);
            if let Some(id) = delta.next_doc_id {
                self.next_doc_id = id;
            }
            if let Some(databases) = &delta.opencode_databases {
                self.databases = databases.duplicate();
            }
            self.commits += 1;
        }
        session.commit()
    }

    fn keys(&self) -> Vec<String> {
        self.files.key_list()
    }
}

fn offset(session: &CheckpointSession, path: &str) -> Option<u64> {
    session.file(&path.to_string()).map(|file| file.offset)
}

#[test]
fn sessions_see_stored_files_and_their_own_changes() {
    let store = Store::new(&[("a", 1), ("b", 2)]);
    let mut session = store.session();
    store.preload(&mut session, &["a", "b", "c", "a"]);
    assert_eq!(offset(&session, "a"), Some(1));
    assert_eq!(offset(&session, "c"), None);
    session.upsert_file("c".to_string(), file(3));
    session.delete_file(&"a".to_string());
    assert_eq!(offset(&session, "a"), None);
    assert_eq!(offset(&session, "c"), Some(3));
    let mut keys = session.file_keys(&store.keys());
    keys.sort();
    assert_eq!(keys, ["b", "c"]);
    assert!(session.has_files(&store.keys()));
    assert!(!session.contains_file(&"a".to_string(), true));
    assert!(session.contains_file(&"unloaded".to_string(), true));
    assert!(!session.contains_file(&"unloaded".to_string(), false));
}

#[test]
fn what_is_seen_is_what_is_committed() {
    let mut store = Store::new(&[("a", 1), ("b", 2)]);
    let mut session = store.session();
    store.preload(&mut session, &["a", "b"]);
    session.delete_file(&"a".to_string());
    session.upsert_file("b".to_string(), file(9));
    session.upsert_file("d".to_string(), file(4));
    session.set_next_doc_id(50);
    assert!(store.commit(&mut session));
    assert_eq!(store.keys(), ["b", "d"]);
    assert_eq!(store.files.get(&"b".to_string()).unwrap().offset, 9);
    assert_eq!(store.next_doc_id, 50);
    assert_eq!(session.next_doc_id(), 50);
    assert!(!store.commit(&mut session));
    assert_eq!(store.commits, 1);
}

#[test]
fn writing_what_is_known_changes_nothing() {
    let mut store = Store::new(&[("a", 1)]);
    let mut session = store.session();
    store.preload(&mut session, &["a"]);
    session.upsert_file("a".to_string(), file(1));
    session.set_next_doc_id(1);
    assert!(!store.commit(&mut session));
    assert_eq!(store.commits, 0);
}

#[test]
fn a_deleted_file_can_come_back() {
    let mut store = Store::new(&[("a", 1)]);
    let mut session = store.session();
    store.preload(&mut session, &["a"]);
    session.delete_file(&"a".to_string());
    session.upsert_file("a".to_string(), file(2));
    assert_eq!(session.file_keys(&store.keys()), ["a"]);
    assert!(store.commit(&mut session));
    assert_eq!(store.files.get(&"a".to_string()).unwrap().offset, 2);
}

#[test]
fn clearing_forgets_every_stored_file() {
    let mut store = Store::new(&[("a", 1), ("b", 2)]);
    let mut session = store.session();
    store.preload(&mut session, &["a"]);
    session.clear_files();
    assert!(!session.has_files(&store.keys()));
    assert!(!session.is_loaded(&"a".to_string()));
    assert!(session.missing(&texts(&["b"])).is_empty());
    store.preload(&mut session, &["b"]);
    assert_eq!(offset(&session, "b"), None);
    assert!(!session.contains_file(&"a".to_string(), true));
    session.upsert_file("new".to_string(), file(7));
    session.delete_file(&"b".to_string());
    assert_eq!(session.file_keys(&store.keys()), ["new"]);
    assert!(store.commit(&mut session));
    assert_eq!(store.keys(), ["new"]);
}

#[test]
fn database_states_are_written_only_when_they_change() {
    let mut store = Store::new(&[]);
    let mut session = store.session();
    let mut databases: TextMap<OpencodeDatabaseState> = SortedMap::new();
    session.set_opencode_databases(databases.duplicate());
    assert!(!store.commit(&mut session));
    databases.insert(
        "db".to_string(),
        OpencodeDatabaseState {
            parser_version: 1,
            event_rowid: 2,
            event_id: None,
            owned_session_ids: SortedSet::new(),
        },
    );
    session.set_opencode_databases(databases.duplicate());
    assert!(store.commit(&mut session));
    assert!(store.databases.same(&databases));
    assert!(session.opencode_databases().same(&databases));
    assert!(!store.commit(&mut session));
}
