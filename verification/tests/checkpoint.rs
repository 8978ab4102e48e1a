//! The checkpoint store on a simulated disk, and its queries on a real database: the library
//! decides, and the helpers below carry its decisions out.

use memex_refresh::checkpoint::{
    any_outside, export_document, import_document, is_checkpoint_artifact_name, plan_commit,
    replace_snapshot, rows_to_read, CheckpointDelta, CheckpointReader, EncodedDelta, NextIdError,
    StateDocument, StoreContents, StoreWrites, DATABASE, FILE_KEYS, FILE_PAYLOAD, FORMAT_VERSION,
    HAS_FILE, HOT_FILES, SCHEMA, WRITE_FILE,
};
use memex_refresh::codec::{legacy_extras, FilePayload, Fields};
use memex_refresh::keys::{TextMap, TextSet};
use memex_refresh::lifecycle::{
    archive_name, authority, bootstrap_identity, bootstrap_is_empty, check_legacy_save,
    digest_text, marker_document, new_identity, plan_backup, remains_step, render_receipt,
    validate_metadata, Authority, BackupStep, MetadataError, ReceiptError, RemainsRow,
    RemainsStep,
};
use memex_refresh::migration::{
    first_look, plan_reader, plan_writer, resumes_bootstrap, FirstLook, MigrationStep, ReaderPlan,
    WriterPlan,
};
use memex_refresh::model::Modeled;
use memex_refresh::recovery::{read_directory, AuthorityImage, DatabaseImage, ReadError};
use memex_refresh::sorted::{SortedMap, SortedSet};
use memex_refresh::state::{
    FileIdentity, FileState, IngestState, OpencodeDatabaseState, PendingToolCall,
};
use rusqlite::Connection;
use serde_json::Value;
use std::collections::BTreeMap;

const ODD_PATH: &str = "./odd/../a\n\0é.jsonl";

fn file(mtime: i64) -> FileState {
    let mut calls: TextMap<PendingToolCall> = SortedMap::new();
    calls.insert(
        "call".to_string(),
        PendingToolCall {
            tool_use_doc_id: Some(u64::MAX),
            timestamp: u64::MAX,
            argument_bytes: Some(u64::MAX),
            ..PendingToolCall::default()
        },
    );
    FileState {
        size: u64::MAX,
        mtime,
        offset: u64::MAX,
        turn_id: u32::MAX,
        legacy_turn_id: Some(u32::MAX),
        claude_background: None,
        parser_version: u32::MAX,
        pending_tool_calls: calls,
        identity: FileIdentity {
            device: Some(u64::MAX),
            inode: Some(u64::MAX),
            prefix_bytes: u64::MAX,
            modified_ns: Some(i64::MIN),
            changed_ns: Some(i64::MAX),
            ..FileIdentity::default()
        },
        codex_metadata_offsets: Some(vec![0, u64::MAX]),
    }
}

fn database() -> OpencodeDatabaseState {
    let mut owned: TextSet = SortedSet::new();
    owned.insert("session".to_string());
    OpencodeDatabaseState {
        parser_version: u32::MAX,
        event_rowid: i64::MIN,
        event_id: Some("event".to_string()),
        owned_session_ids: owned,
    }
}

fn put<T: Into<Value>>(object: &mut serde_json::Map<String, Value>, name: &str, value: Option<T>) {
    if let Some(value) = value {
        object.insert(name.to_string(), value.into());
    }
}

fn call_value(call: &PendingToolCall) -> Value {
    let mut object = serde_json::Map::new();
    put(&mut object, "tool_name", call.tool_name.clone());
    put(&mut object, "tool_use_event_id", call.tool_use_event_id.clone());
    put(&mut object, "tool_use_doc_id", call.tool_use_doc_id);
    put(&mut object, "timestamp", Some(call.timestamp));
    put(&mut object, "argument_sha256", call.argument_sha256.clone());
    put(&mut object, "argument_bytes", call.argument_bytes);
    put(&mut object, "parent_event_id", call.parent_event_id.clone());
    put(&mut object, "session_id", call.session_id.clone());
    put(&mut object, "source_tool_use_id", call.source_tool_use_id.clone());
    put(
        &mut object,
        "source_tool_assistant_uuid",
        call.source_tool_assistant_uuid.clone(),
    );
    Value::Object(object)
}

fn file_value(file: &FileState) -> Value {
    let mut object = serde_json::Map::new();
    put(&mut object, "size", Some(file.size));
    put(&mut object, "mtime", Some(file.mtime));
    put(&mut object, "offset", Some(file.offset));
    put(&mut object, "turn_id", Some(file.turn_id));
    put(&mut object, "legacy_turn_id", file.legacy_turn_id);
    put(&mut object, "claude_background", file.claude_background);
    put(&mut object, "parser_version", Some(file.parser_version));
    put(
        &mut object,
        "codex_metadata_offsets",
        file.codex_metadata_offsets.clone(),
    );
    let mut identity = serde_json::Map::new();
    put(&mut identity, "sqlite_wal", file.identity.sqlite_wal.clone());
    put(&mut identity, "device", file.identity.device);
    put(&mut identity, "inode", file.identity.inode);
    put(&mut identity, "prefix_sha256", file.identity.prefix_sha256.clone());
    put(&mut identity, "prefix_bytes", Some(file.identity.prefix_bytes));
    put(&mut identity, "modified_ns", file.identity.modified_ns);
    put(&mut identity, "changed_ns", file.identity.changed_ns);
    object.insert("identity".to_string(), Value::Object(identity));
    let mut calls = serde_json::Map::new();
    for i in 0..file.pending_tool_calls.len() {
        calls.insert(
            file.pending_tool_calls.key_at(i).clone(),
            call_value(file.pending_tool_calls.value_at(i)),
        );
    }
    object.insert("pending_tool_calls".to_string(), Value::Object(calls));
    Value::Object(object)
}

fn database_value(database: &OpencodeDatabaseState) -> Value {
    let mut object = serde_json::Map::new();
    put(&mut object, "parser_version", Some(database.parser_version));
    put(&mut object, "event_rowid", Some(database.event_rowid));
    put(&mut object, "event_id", database.event_id.clone());
    put(
        &mut object,
        "owned_session_ids",
        Some(database.owned_session_ids.list()),
    );
    Value::Object(object)
}

fn state_value(state: &IngestState) -> Value {
    let mut files = serde_json::Map::new();
    for i in 0..state.files.len() {
        files.insert(state.files.key_at(i).clone(), file_value(state.files.value_at(i)));
    }
    let mut databases = serde_json::Map::new();
    for i in 0..state.opencode_databases.len() {
        databases.insert(
            state.opencode_databases.key_at(i).clone(),
            database_value(state.opencode_databases.value_at(i)),
        );
    }
    let mut object = serde_json::Map::new();
    put(&mut object, "next_doc_id", Some(state.next_doc_id));
    object.insert("files".to_string(), Value::Object(files));
    object.insert("opencode_databases".to_string(), Value::Object(databases));
    Value::Object(object)
}

fn fields_of(object: &serde_json::Map<String, Value>) -> Fields {
    let mut fields: Fields = SortedMap::new();
    for (name, value) in object {
        fields.insert(name.clone(), value.to_string());
    }
    fields
}

fn fields_value(fields: &Fields) -> serde_json::Map<String, Value> {
    let mut object = serde_json::Map::new();
    for i in 0..fields.len() {
        object.insert(
            fields.key_at(i).clone(),
            serde_json::from_str(fields.value_at(i)).unwrap(),
        );
    }
    object
}

fn each_fields(object: &serde_json::Map<String, Value>) -> TextMap<Fields> {
    let mut map: TextMap<Fields> = SortedMap::new();
    for (name, value) in object {
        map.insert(name.clone(), fields_of(value.as_object().unwrap()));
    }
    map
}

fn payload_of(value: &Value) -> FilePayload {
    let mut object = value.as_object().unwrap().clone();
    let identity = object.remove("identity");
    let calls = object.remove("pending_tool_calls");
    FilePayload {
        fields: fields_of(&object),
        identity: identity.map(|value| fields_of(value.as_object().unwrap())),
        pending_tool_calls: calls.map(|value| each_fields(value.as_object().unwrap())),
    }
}

fn each_value(map: &TextMap<Fields>) -> Value {
    let mut object = serde_json::Map::new();
    for i in 0..map.len() {
        object.insert(
            map.key_at(i).clone(),
            Value::Object(fields_value(map.value_at(i))),
        );
    }
    Value::Object(object)
}

fn payload_value(payload: &FilePayload) -> Value {
    let mut object = fields_value(&payload.fields);
    if let Some(identity) = &payload.identity {
        object.insert("identity".to_string(), Value::Object(fields_value(identity)));
    }
    if let Some(calls) = &payload.pending_tool_calls {
        object.insert("pending_tool_calls".to_string(), each_value(calls));
    }
    Value::Object(object)
}

fn document_of(value: &Value) -> StateDocument {
    let object = value.as_object().unwrap();
    let mut files: TextMap<FilePayload> = SortedMap::new();
    for (path, payload) in object["files"].as_object().unwrap() {
        files.insert(path.clone(), payload_of(payload));
    }
    StateDocument {
        next_doc_id: object["next_doc_id"].as_u64().unwrap(),
        files,
        opencode_databases: object
            .get("opencode_databases")
            .map(|value| each_fields(value.as_object().unwrap())),
        extras: legacy_extras(&fields_of(object)),
    }
}

fn document_value(document: &StateDocument) -> Value {
    let mut object = fields_value(&document.extras);
    put(&mut object, "next_doc_id", Some(document.next_doc_id));
    let mut files = serde_json::Map::new();
    for i in 0..document.files.len() {
        files.insert(
            document.files.key_at(i).clone(),
            payload_value(document.files.value_at(i)),
        );
    }
    object.insert("files".to_string(), Value::Object(files));
    if let Some(databases) = &document.opencode_databases {
        object.insert("opencode_databases".to_string(), each_value(databases));
    }
    Value::Object(object)
}

fn text(value: &Value, name: &str) -> Option<String> {
    value.get(name).and_then(Value::as_str).map(str::to_string)
}

fn call_of(value: &Value) -> PendingToolCall {
    PendingToolCall {
        tool_name: text(value, "tool_name"),
        tool_use_event_id: text(value, "tool_use_event_id"),
        tool_use_doc_id: value.get("tool_use_doc_id").and_then(Value::as_u64),
        timestamp: value.get("timestamp").and_then(Value::as_u64).unwrap_or(0),
        argument_sha256: text(value, "argument_sha256"),
        argument_bytes: value.get("argument_bytes").and_then(Value::as_u64),
        parent_event_id: text(value, "parent_event_id"),
        session_id: text(value, "session_id"),
        source_tool_use_id: text(value, "source_tool_use_id"),
        source_tool_assistant_uuid: text(value, "source_tool_assistant_uuid"),
    }
}

fn file_of(value: &Value) -> Option<FileState> {
    let null = Value::Null;
    let identity = value.get("identity").unwrap_or(&null);
    let mut calls: TextMap<PendingToolCall> = SortedMap::new();
    if let Some(object) = value.get("pending_tool_calls").and_then(Value::as_object) {
        for (id, call) in object {
            calls.insert(id.clone(), call_of(call));
        }
    }
    Some(FileState {
        size: value.get("size")?.as_u64()?,
        mtime: value.get("mtime")?.as_i64()?,
        offset: value.get("offset")?.as_u64()?,
        turn_id: value.get("turn_id")?.as_u64()? as u32,
        legacy_turn_id: value
            .get("legacy_turn_id")
            .and_then(Value::as_u64)
            .map(|id| id as u32),
        claude_background: value.get("claude_background").and_then(Value::as_bool),
        parser_version: value
            .get("parser_version")
            .and_then(Value::as_u64)
            .unwrap_or(0) as u32,
        pending_tool_calls: calls,
        identity: FileIdentity {
            sqlite_wal: text(identity, "sqlite_wal"),
            device: identity.get("device").and_then(Value::as_u64),
            inode: identity.get("inode").and_then(Value::as_u64),
            prefix_sha256: text(identity, "prefix_sha256"),
            prefix_bytes: identity
                .get("prefix_bytes")
                .and_then(Value::as_u64)
                .unwrap_or(0),
            modified_ns: identity.get("modified_ns").and_then(Value::as_i64),
            changed_ns: identity.get("changed_ns").and_then(Value::as_i64),
        },
        codex_metadata_offsets: value
            .get("codex_metadata_offsets")
            .and_then(Value::as_array)
            .map(|list| list.iter().map(|offset| offset.as_u64().unwrap()).collect()),
    })
}

fn database_of(value: &Value) -> OpencodeDatabaseState {
    let mut owned: TextSet = SortedSet::new();
    for id in value["owned_session_ids"].as_array().unwrap() {
        owned.insert(id.as_str().unwrap().to_string());
    }
    OpencodeDatabaseState {
        parser_version: value["parser_version"].as_u64().unwrap() as u32,
        event_rowid: value["event_rowid"].as_i64().unwrap(),
        event_id: text(value, "event_id"),
        owned_session_ids: owned,
    }
}

/// Reads a state, as far as its rows are valid: `None` where one is not.
fn state_of(document: &StateDocument) -> Option<IngestState> {
    let mut state = IngestState {
        next_doc_id: document.next_doc_id,
        ..IngestState::default()
    };
    for i in 0..document.files.len() {
        state.files.insert(
            document.files.key_at(i).clone(),
            file_of(&payload_value(document.files.value_at(i)))?,
        );
    }
    if let Some(databases) = &document.opencode_databases {
        for i in 0..databases.len() {
            state.opencode_databases.insert(
                databases.key_at(i).clone(),
                database_of(&Value::Object(fields_value(databases.value_at(i)))),
            );
        }
    }
    Some(state)
}

fn describes_state(raw: &[u8]) -> bool {
    match serde_json::from_slice::<Value>(raw) {
        Ok(value) => {
            value.get("next_doc_id").is_some_and(Value::is_u64)
                && value.get("files").is_some_and(Value::is_object)
        }
        Err(_) => false,
    }
}

/// A database file.
struct Database {
    version: i64,
    identity: String,
    origin: String,
    contents: StoreContents,
}

/// A directory with the files of a checkpoint store.
#[derive(Default)]
struct Disk {
    authority: Option<Vec<u8>>,
    lock: Option<String>,
    database: Option<Database>,
    archives: BTreeMap<String, Vec<u8>>,
}

impl Disk {
    fn authority(&self) -> Result<Authority, String> {
        let describes = self.authority.as_deref().is_some_and(describes_state);
        authority(self.authority.as_ref(), describes).map_err(|error| format!("{error:?}"))
    }

    fn validate(&self, identity: &str) -> Result<(), String> {
        let database = self.database.as_ref().ok_or("no database")?;
        validate_metadata(
            database.version,
            &database.identity,
            &database.contents.next_doc_id,
            identity,
        )
        .map(|_| ())
        .map_err(|error| format!("{error:?}"))
    }

    fn validate_bootstrap(&self) -> Result<String, String> {
        let receipt = self.lock.as_deref().ok_or("no lock")?;
        let identity = bootstrap_identity(receipt).map_err(|error| format!("{error:?}"))?;
        self.validate(&identity)?;
        let database = self.database.as_ref().unwrap();
        let databases = each_value(&database.contents.opencode_databases).to_string();
        let extras = Value::Object(fields_value(&database.contents.extras)).to_string();
        let empty = bootstrap_is_empty(
            &database.origin,
            &database.contents.next_doc_id,
            &databases,
            &extras,
            database.contents.files.len() > 0,
            &identity,
        );
        if empty {
            Ok(identity)
        } else {
            Err("populated database without authority".to_string())
        }
    }

    fn open_active(&self, identity: &str) -> Result<StateDocument, String> {
        if self.lock.is_none() {
            return Err("no lock".to_string());
        }
        self.validate(identity)?;
        let contents = &self.database.as_ref().unwrap().contents;
        export_document(contents).map_err(|error| format!("{error:?}"))
    }

    /// The document that a reader sees, read in one go.
    fn read(&self) -> Result<StateDocument, String> {
        let authority = match self.authority()? {
            Authority::Missing => AuthorityImage::Missing,
            Authority::Marker(identity) => AuthorityImage::Marker(identity),
            Authority::Legacy => {
                let raw = self.authority.as_ref().unwrap();
                AuthorityImage::Document(document_of(&serde_json::from_slice(raw).unwrap()))
            }
        };
        let database = self.database.as_ref().map(|database| DatabaseImage::Filled {
            version: database.version,
            identity: database.identity.clone(),
            origin: database.origin.clone(),
            contents: StoreContents {
                next_doc_id: database.contents.next_doc_id.clone(),
                opencode_databases: database.contents.opencode_databases.duplicate(),
                extras: database.contents.extras.duplicate(),
                files: database.contents.files.duplicate(),
            },
        });
        let found = read_directory(&authority, database.as_ref(), self.lock.as_ref())
            .map_err(|error| format!("{error:?}"));
        let stepwise = self.read_stepwise();
        match (&found, &stepwise) {
            (Ok(found), Ok(stepwise)) => assert!(found.same(stepwise)),
            (Err(_), Err(_)) => {}
            _ => panic!("both ways of reading agree"),
        }
        found
    }

    /// The document that a reader sees, read as the plan says.
    fn read_stepwise(&self) -> Result<StateDocument, String> {
        match plan_reader(&self.authority()?) {
            ReaderPlan::ReadDocument => {
                let raw = self.authority.as_ref().unwrap();
                Ok(document_of(&serde_json::from_slice(raw).unwrap()))
            }
            ReaderPlan::Empty => {
                if self.database.is_some() {
                    self.validate_bootstrap()?;
                }
                Ok(document_of(&state_value(&IngestState::default())))
            }
            ReaderPlan::Open(identity) => self.open_active(&identity),
        }
    }

    fn has_authority(&self) -> Result<bool, String> {
        let missing = matches!(self.authority()?, Authority::Missing);
        self.read()?;
        Ok(!missing)
    }

    /// Opens the store for writing. With `fail_at`, the run stops at that point.
    fn open_writer(&mut self, allow_initialize: bool, fail_at: Option<&str>) -> Result<(), String> {
        let fails = |point: &str| -> Result<(), String> {
            if fail_at == Some(point) {
                Err(format!("stopped at {point}"))
            } else {
                Ok(())
            }
        };
        let before = self.authority()?;
        match first_look(&before, allow_initialize) {
            FirstLook::Open(identity) => return self.open_active(&identity).map(|_| ()),
            FirstLook::Refuse => return Err("initialization is not allowed".to_string()),
            FirstLook::Lock => {}
        }
        if self.lock.is_none() {
            self.lock = Some(String::new());
        }
        let resumed = match (&before, &self.database) {
            (Authority::Missing, Some(_)) => Some(self.validate_bootstrap()?),
            _ => None,
        };
        let raw = self.authority.clone().unwrap_or_default();
        let fresh = new_identity().unwrap();
        let plan = plan_writer(&before, allow_initialize, &raw, resumed.as_deref(), &fresh);
        let WriterPlan::Migrate(migration) = plan else {
            return Err("no migration".to_string());
        };
        let document = match &before {
            Authority::Legacy => document_of(&serde_json::from_slice(&raw).unwrap()),
            _ => document_of(&state_value(&IngestState::default())),
        };
        for step in &migration.steps {
            match step {
                MigrationStep::Archive(name) => {
                    fails("before_backup")?;
                    match plan_backup(self.archives.get(name), &raw) {
                        BackupStep::Write => {
                            self.archives.insert(name.clone(), raw.clone());
                        }
                        BackupStep::Keep => {}
                        BackupStep::Mismatch => return Err("backup mismatch".to_string()),
                    }
                    fails("after_backup")?;
                }
                MigrationStep::WriteReceipt(receipt) => {
                    self.lock = Some(receipt.clone());
                }
                MigrationStep::Import => {
                    fails("before_import")?;
                    let database = Database {
                        version: FORMAT_VERSION,
                        identity: migration.identity.clone(),
                        origin: migration.origin.clone(),
                        contents: import_document(&document),
                    };
                    fails("before_import_commit")?;
                    self.database = Some(database);
                    fails("after_import_commit")?;
                }
                MigrationStep::Truncate => {}
                MigrationStep::SyncDatabase => {
                    fails("before_database_sync")?;
                    fails("after_database_sync")?;
                }
                MigrationStep::PublishMarker => {
                    fails("before_marker")?;
                    self.authority = Some(marker_document(&migration.identity));
                    fails("after_marker")?;
                }
            }
        }
        self.open_active(&migration.identity).map(|_| ())
    }

    fn contents(&mut self) -> &mut StoreContents {
        &mut self.database.as_mut().unwrap().contents
    }

    /// Carries a delta out. The store is untouched where there is nothing to write.
    fn commit(&mut self, delta: &CheckpointDelta) -> bool {
        let contents = self.contents();
        let encoded = encoded(delta);
        match plan_commit(&encoded, &contents.files, &contents.opencode_databases) {
            None => false,
            Some(writes) => {
                carry_out(contents, writes);
                true
            }
        }
    }

    fn export(&self) -> Value {
        document_value(&self.read().unwrap())
    }

    fn snapshot(&self) -> IngestState {
        state_of(&self.read().unwrap()).unwrap()
    }

    fn reader(&self) -> CheckpointReader {
        let document = self.read().unwrap();
        let state = state_of(&document).unwrap();
        CheckpointReader { document, state }
    }
}

fn encoded(delta: &CheckpointDelta) -> EncodedDelta {
    let mut upserts: TextMap<FilePayload> = SortedMap::new();
    for i in 0..delta.upserts.len() {
        upserts.insert(
            delta.upserts.key_at(i).clone(),
            payload_of(&file_value(delta.upserts.value_at(i))),
        );
    }
    EncodedDelta {
        upserts,
        deletes: delta.deletes.duplicate(),
        clear_files: delta.clear_files,
        next_doc_id: delta.next_doc_id,
        opencode_databases: delta.opencode_databases.as_ref().map(|databases| {
            let mut map: TextMap<Fields> = SortedMap::new();
            for i in 0..databases.len() {
                let value = database_value(databases.value_at(i));
                map.insert(
                    databases.key_at(i).clone(),
                    fields_of(value.as_object().unwrap()),
                );
            }
            map
        }),
    }
}

fn carry_out(contents: &mut StoreContents, writes: StoreWrites) {
    if writes.clear_files {
        contents.files = SortedMap::new();
    }
    contents.files.remove_all(&writes.deletes.list());
    contents.files.extend(&writes.upserts);
    if let Some(id) = writes.next_doc_id {
        contents.next_doc_id = id;
    }
    if let Some(databases) = writes.opencode_databases {
        contents.opencode_databases = databases;
    }
}

fn extended_legacy(disk: &mut Disk) -> Value {
    let mut state = IngestState {
        next_doc_id: u64::MAX,
        ..IngestState::default()
    };
    state.files.insert(ODD_PATH.to_string(), file(i64::MIN));
    state.opencode_databases.insert("database".to_string(), database());
    let mut value = state_value(&state);
    let parsed = |text: String| serde_json::from_str::<Value>(&text).unwrap();
    value["extension"] = parsed(format!("{{\"unsigned\":{}}}", u64::MAX));
    let row = &mut value["files"][ODD_PATH];
    row["extension"] = parsed(format!("[\"opaque\",{}]", u64::MAX));
    row["identity"]["extension"] = parsed(format!("{{\"id\":{}}}", u64::MAX));
    row["pending_tool_calls"]["call"]["extension"] = parsed("{\"future\":true}".to_string());
    value["opencode_databases"]["database"]["extension"] = Value::from("owner");
    disk.authority = Some(serde_json::to_vec_pretty(&value).unwrap());
    value
}

fn upserting(path: &str, file: FileState) -> CheckpointDelta {
    let mut delta = CheckpointDelta::default();
    delta.upserts.insert(path.to_string(), file);
    delta
}

fn fresh_disk() -> Disk {
    let mut disk = Disk::default();
    disk.open_writer(true, None).unwrap();
    disk
}

#[test]
fn migration_preserves_exact_unsigned_values_extensions_paths_and_raw_backup() {
    let mut disk = Disk::default();
    let original = extended_legacy(&mut disk);
    let raw = disk.authority.clone().unwrap();
    disk.open_writer(false, None).unwrap();
    assert_eq!(disk.export(), original);
    assert_eq!(disk.reader().header().next_doc_id, u64::MAX);
    assert_eq!(disk.snapshot().files.value_at(0).offset, u64::MAX);
    assert!(!describes_state(disk.authority.as_ref().unwrap()));
    let backups: Vec<_> = disk
        .archives
        .keys()
        .filter(|name| name.starts_with("ingest.legacy-"))
        .collect();
    assert_eq!(backups.len(), 1);
    assert_eq!(disk.archives[backups[0]], raw);
}

#[test]
fn delta_updates_preserve_private_nested_extensions_and_remove_deleted_known_fields() {
    let mut disk = Disk::default();
    let original = extended_legacy(&mut disk);
    disk.open_writer(false, None).unwrap();
    let mut state = disk.snapshot();
    let key = ODD_PATH.to_string();
    let mut row = state.files.remove(&key).unwrap();
    row.offset = 7;
    row.identity.inode = None;
    let call_key = "call".to_string();
    let mut call = row.pending_tool_calls.remove(&call_key).unwrap();
    call.tool_use_doc_id = None;
    row.pending_tool_calls.insert(call_key, call);
    row.codex_metadata_offsets = None;
    state.files.insert(key, row);
    let database_key = "database".to_string();
    let mut changed = state.opencode_databases.remove(&database_key).unwrap();
    changed.event_rowid = 19;
    state.opencode_databases.insert(database_key, changed);
    let stored = disk.reader().file_keys();
    disk.commit(&replace_snapshot(&stored, &state));
    let exported = disk.export();
    assert_eq!(exported["extension"], original["extension"]);
    let key = ODD_PATH;
    for nested in [
        "/extension",
        "/identity/extension",
        "/pending_tool_calls/call/extension",
    ] {
        assert_eq!(
            exported["files"][key].pointer(nested),
            original["files"][key].pointer(nested)
        );
    }
    assert!(exported["files"][key]["identity"].get("inode").is_none());
    assert!(exported["files"][key]["pending_tool_calls"]["call"]
        .get("tool_use_doc_id")
        .is_none());
    assert!(exported["files"][key].get("codex_metadata_offsets").is_none());
    assert_eq!(
        exported["opencode_databases"]["database"]["extension"],
        "owner"
    );
    assert_eq!(exported["files"][key]["offset"], 7);
    assert_eq!(exported["opencode_databases"]["database"]["event_rowid"], 19);
}

#[test]
fn legacy_defaults_remain_readable_after_migration() {
    let mut disk = Disk::default();
    disk.authority = Some(
        br#"{"next_doc_id":9,"files":{"legacy":{"size":4,"mtime":-1,"offset":3,"turn_id":2}}}"#
            .to_vec(),
    );
    disk.open_writer(false, None).unwrap();
    let state = disk.snapshot();
    assert_eq!(state.next_doc_id, 9);
    let legacy = state.files.get(&"legacy".to_string()).unwrap();
    assert!(legacy.identity.same(&FileIdentity::default()));
    assert_eq!(legacy.pending_tool_calls.len(), 0);
    assert_eq!(state.opencode_databases.len(), 0);
}

#[test]
fn sparse_reads_and_delta_leave_unrelated_payloads_identical() {
    let mut disk = fresh_disk();
    let mut delta = CheckpointDelta::default();
    for id in 0..2000 {
        delta.upserts.insert(format!("file-{id}"), file(id));
    }
    delta.next_doc_id = Some(u64::MAX);
    assert!(disk.commit(&delta));
    let unrelated = "file-1000".to_string();
    let before = payload_value(disk.contents().files.get(&unrelated).unwrap()).to_string();
    let loaded = disk
        .reader()
        .load_files(&vec!["file-1".to_string(), "absent".to_string()]);
    assert_eq!(loaded.len(), 2);
    assert!(loaded.get(&"file-1".to_string()).unwrap().is_some());
    assert!(loaded.get(&"absent".to_string()).unwrap().is_none());
    let mut delta = upserting("file-1", file(-8));
    delta.deletes.insert("file-2".to_string());
    assert!(disk.commit(&delta));
    let after = payload_value(disk.contents().files.get(&unrelated).unwrap()).to_string();
    assert_eq!(before, after);
    assert!(!disk.reader().contains_file(&"file-2".to_string()));
    assert_eq!(disk.reader().file_keys().len(), 1999);
    assert_eq!(disk.reader().header().next_doc_id, u64::MAX);
    assert_eq!(
        disk.snapshot().files.get(&"file-1".to_string()).unwrap().mtime,
        -8
    );
}

#[test]
fn empty_delta_starts_no_transaction_and_changes_no_pages() {
    let mut disk = fresh_disk();
    let before = disk.export();
    let empty = CheckpointDelta::default();
    assert!(empty.is_empty());
    assert!(!disk.commit(&empty));
    assert_eq!(disk.export(), before);
    let mut clearing = CheckpointDelta::default();
    clearing.clear_files = true;
    assert!(!clearing.is_empty());
    assert!(disk.commit(&clearing));
}

/// A handle on a database file with the library's tables.
fn handle(path: &std::path::Path) -> Connection {
    let connection = Connection::open(path).unwrap();
    connection.pragma_update(None, "journal_mode", "WAL").unwrap();
    connection.execute_batch(SCHEMA).unwrap();
    connection
}

/// Commits a change of files to a database, as the library plans it.
fn commit_rows(connection: &Connection, delta: &CheckpointDelta) {
    let delta = encoded(delta);
    let mut stored: TextMap<FilePayload> = SortedMap::new();
    for path in rows_to_read(&delta) {
        let row = connection.query_row(FILE_PAYLOAD, [&path], |row| row.get::<_, String>(0));
        if let Ok(payload) = row {
            stored.insert(path, payload_of(&serde_json::from_str(&payload).unwrap()));
        }
    }
    let writes = plan_commit(&delta, &stored, &SortedMap::new()).unwrap();
    for i in 0..writes.upserts.len() {
        let payload = payload_value(writes.upserts.value_at(i)).to_string();
        connection
            .execute(WRITE_FILE, [writes.upserts.key_at(i), &payload])
            .unwrap();
    }
}

fn hot_rows(connection: &Connection, since: i64) -> Vec<(String, FileState)> {
    let mut statement = connection.prepare(HOT_FILES).unwrap();
    let rows = statement
        .query_map([since], |row| Ok((row.get(0)?, row.get(1)?)))
        .unwrap();
    rows.map(|row| {
        let (path, payload): (String, String) = row.unwrap();
        (path, file_of(&serde_json::from_str(&payload).unwrap()).unwrap())
    })
    .collect()
}

fn keys(connection: &Connection) -> Vec<String> {
    let mut statement = connection.prepare(FILE_KEYS).unwrap();
    let rows = statement.query_map([], |row| row.get(0)).unwrap();
    rows.map(|row| row.unwrap()).collect()
}

fn has_file(connection: &Connection, path: &str) -> bool {
    connection
        .query_row(HAS_FILE, [path], |row| row.get(0))
        .unwrap()
}

/// The whole state of a database with files only, if every payload describes one.
fn snapshot(connection: &Connection) -> Option<IngestState> {
    let mut files: TextMap<FilePayload> = SortedMap::new();
    for path in keys(connection) {
        let payload: String = connection
            .query_row(FILE_PAYLOAD, [&path], |row| row.get(0))
            .unwrap();
        files.insert(path, payload_of(&serde_json::from_str(&payload).unwrap()));
    }
    let document = export_document(&StoreContents {
        next_doc_id: "1".to_string(),
        files,
        opencode_databases: SortedMap::new(),
        extras: SortedMap::new(),
    });
    state_of(&document.ok()?)
}

#[test]
fn hot_and_key_queries_do_not_decode_cold_payloads() {
    let directory = tempfile::tempdir().unwrap();
    let connection = handle(&directory.path().join(DATABASE));
    commit_rows(&connection, &upserting("hot", file(50)));
    let cold = r#"{"mtime":-50,"size":"invalid FileState"}"#;
    connection.execute(WRITE_FILE, ["cold", cold]).unwrap();
    assert_eq!(hot_rows(&connection, 0).len(), 1);
    assert_eq!(hot_rows(&connection, 51).len(), 0);
    assert_eq!(keys(&connection).len(), 2);
    assert!(has_file(&connection, "cold"));
    let mut excluded: TextSet = SortedSet::new();
    excluded.insert("hot".to_string());
    assert!(any_outside(&keys(&connection), &excluded));
    excluded.insert("cold".to_string());
    assert!(!any_outside(&keys(&connection), &excluded));
    assert!(snapshot(&connection).is_none());
    connection
        .execute("DELETE FROM files WHERE path='cold'", [])
        .unwrap();
    assert_eq!(snapshot(&connection).unwrap().files.key_list(), ["hot"]);
}

#[test]
fn live_reader_observes_wal_commits_without_database_mtime_changes() {
    let directory = tempfile::tempdir().unwrap();
    let path = directory.path().join(DATABASE);
    let writer = handle(&path);
    let reader = Connection::open(&path).unwrap();
    let modified = path.metadata().unwrap().modified().unwrap();
    assert!(hot_rows(&reader, 0).is_empty());
    commit_rows(&writer, &upserting("new", file(1)));
    assert_eq!(path.metadata().unwrap().modified().unwrap(), modified);
    let seen = hot_rows(&reader, 0);
    assert_eq!(seen.len(), 1);
    assert_eq!((seen[0].0.as_str(), seen[0].1.mtime), ("new", 1));
    assert!(has_file(&reader, "new"));
}

#[test]
fn files_are_loaded_where_they_are_contained() {
    let mut disk = fresh_disk();
    assert!(disk.commit(&upserting("there", file(50))));
    let reader = disk.reader();
    let paths = vec!["there".to_string(), "absent".to_string()];
    let loaded = reader.load_files(&paths);
    assert_eq!(loaded.len(), 2);
    for path in &paths {
        assert_eq!(
            loaded.get(path).unwrap().is_some(),
            reader.contains_file(path)
        );
    }
    assert_eq!(reader.hot_files_since(50).len(), 1);
    assert_eq!(reader.hot_files_since(51).len(), 0);
    assert!(reader.has_files_excluding(&SortedSet::new()));
}

#[test]
fn only_rows_that_are_updated_in_place_are_read() {
    let mut delta = upserting("kept", file(1));
    delta.upserts.insert("rewritten".to_string(), file(1));
    delta.deletes.insert("rewritten".to_string());
    delta.deletes.insert("deleted".to_string());
    assert_eq!(rows_to_read(&encoded(&delta)), ["kept"]);
    delta.clear_files = true;
    assert!(rows_to_read(&encoded(&delta)).is_empty());
}

#[test]
fn only_what_an_interrupted_initialization_left_is_resumed() {
    let marker = Authority::Marker("0".repeat(64));
    assert!(resumes_bootstrap(&Authority::Missing, true, true));
    assert!(!resumes_bootstrap(&Authority::Missing, false, true));
    assert!(!resumes_bootstrap(&Authority::Missing, true, false));
    assert!(!resumes_bootstrap(&Authority::Legacy, true, true));
    assert!(!resumes_bootstrap(&marker, true, true));
}

#[test]
fn migration_failure_boundaries_preserve_legacy_or_activated_authority() {
    for point in [
        "before_backup",
        "after_backup",
        "before_import",
        "before_import_commit",
        "after_import_commit",
        "before_database_sync",
        "after_database_sync",
        "before_marker",
        "after_marker",
    ] {
        let mut disk = Disk::default();
        let original = extended_legacy(&mut disk);
        let raw = disk.authority.clone().unwrap();
        assert!(disk.open_writer(false, Some(point)).is_err(), "{point}");
        if point != "after_marker" {
            assert_eq!(disk.authority.as_ref().unwrap(), &raw, "{point}");
        }
        assert_eq!(disk.export(), original, "{point}");
        disk.open_writer(false, None).unwrap();
        assert_eq!(disk.export(), original, "{point}");
    }
}

#[test]
fn legacy_changes_after_partial_import_are_reimported_not_replaced_by_backup() {
    let mut disk = Disk::default();
    extended_legacy(&mut disk);
    assert!(disk.open_writer(false, Some("after_import_commit")).is_err());
    let replacement: Value = serde_json::from_str(
        r#"{"next_doc_id":72,"files":{},"opencode_databases":{},"future":"new"}"#,
    )
    .unwrap();
    disk.authority = Some(serde_json::to_vec(&replacement).unwrap());
    disk.open_writer(false, None).unwrap();
    assert_eq!(disk.export(), replacement);
    assert_eq!(
        disk.archives
            .keys()
            .filter(|name| name.starts_with("ingest.legacy-"))
            .count(),
        2
    );
}

#[test]
fn backup_collision_is_an_error_and_never_overwrites_bytes() {
    let mut disk = Disk::default();
    extended_legacy(&mut disk);
    let raw = disk.authority.clone().unwrap();
    let digest = <sha2::Sha256 as sha2::Digest>::digest(&raw);
    let backup = format!("ingest.legacy-{digest:x}.json");
    assert_eq!(archive_name(&raw), backup);
    assert_eq!(digest_text(&raw), format!("{digest:x}"));
    disk.archives.insert(backup.clone(), b"wrong bytes".to_vec());
    assert!(disk.open_writer(false, None).is_err());
    assert_eq!(disk.authority.as_ref().unwrap(), &raw);
    assert_eq!(disk.archives[&backup], b"wrong bytes");
}

#[test]
fn read_only_missing_state_creates_nothing_and_initialization_requires_permission() {
    let mut disk = Disk::default();
    assert!(!disk.has_authority().unwrap());
    assert_eq!(disk.snapshot().next_doc_id, 1);
    assert!(disk.authority.is_none() && disk.lock.is_none() && disk.database.is_none());
    assert!(disk.open_writer(false, None).is_err());
    assert!(disk.database.is_none());
    assert!(disk.open_writer(true, None).is_ok());
}

#[test]
fn empty_bootstrap_retry_requires_matching_receipt_and_initialization_permission() {
    let mut disk = Disk::default();
    assert!(disk.open_writer(true, Some("after_import_commit")).is_err());
    assert!(!disk.has_authority().unwrap());
    assert!(disk.open_writer(false, None).is_err());
    let receipt = disk.lock.clone();
    let other = format!("bootstrap:{}", "0".repeat(64));
    assert_eq!(render_receipt(&"0".repeat(64)), other);
    disk.lock = Some(other);
    assert!(disk.read().is_err());
    disk.lock = receipt;
    assert!(disk.open_writer(true, None).is_ok());
}

#[test]
fn missing_authority_rejects_populated_database_even_with_archived_backup() {
    let mut disk = Disk::default();
    extended_legacy(&mut disk);
    disk.open_writer(false, None).unwrap();
    disk.authority = None;
    assert!(disk.has_authority().is_err());
    assert!(disk.read().is_err());
    assert!(disk.open_writer(true, None).is_err());
}

#[test]
fn malformed_marker_missing_database_missing_lock_and_unknown_versions_fail_closed() {
    for broken in [
        "marker",
        "database",
        "lock",
        "version",
        "identity",
        "schema_version",
        "next_id",
    ] {
        let mut disk = fresh_disk();
        match broken {
            "marker" => disk.authority = Some(b"\"memex-checkpoints:broken\"".to_vec()),
            "database" => disk.database = None,
            "lock" => disk.lock = None,
            "version" => {
                let raw = String::from_utf8(disk.authority.clone().unwrap())
                    .unwrap()
                    .replace("checkpoints:1:", "checkpoints:99:");
                disk.authority = Some(raw.into_bytes());
            }
            "identity" => {
                let marker = format!("memex-checkpoints:1:{}", "0".repeat(64));
                disk.authority = Some(serde_json::to_vec(&marker).unwrap());
            }
            "schema_version" => disk.database.as_mut().unwrap().version = 99,
            "next_id" => disk.contents().next_doc_id = "01".to_string(),
            _ => unreachable!(),
        }
        assert!(disk.read().is_err(), "{broken}");
        assert!(disk.has_authority().is_err(), "{broken}");
        assert!(disk.open_writer(true, None).is_err(), "{broken}");
    }
}

#[test]
fn legacy_save_cannot_overwrite_marker_and_explicit_snapshot_keeps_extensions() {
    let mut disk = Disk::default();
    let original = extended_legacy(&mut disk);
    disk.open_writer(false, None).unwrap();
    let marker = disk.authority.clone().unwrap();
    let mut state = disk.snapshot();
    state.next_doc_id = 17;
    assert!(check_legacy_save(Some(&marker), true, describes_state(&marker)).is_err());
    let stored = disk.reader().file_keys();
    disk.commit(&replace_snapshot(&stored, &state));
    let exported = disk.export();
    assert_eq!(disk.authority.as_ref().unwrap(), &marker);
    assert_eq!(exported["next_doc_id"], 17);
    assert_eq!(exported["extension"], original["extension"]);
}

#[test]
fn clear_all_preserves_allocator_and_small_database_map_unless_explicitly_changed() {
    let mut disk = fresh_disk();
    let mut delta = upserting("old", file(0));
    delta.next_doc_id = Some(900);
    let mut databases: TextMap<OpencodeDatabaseState> = SortedMap::new();
    databases.insert("database".to_string(), database());
    delta.opencode_databases = Some(databases);
    assert!(disk.commit(&delta));
    let mut delta = upserting("new", file(1));
    delta.clear_files = true;
    assert!(disk.commit(&delta));
    assert_eq!(disk.reader().file_keys(), ["new"]);
    let header = disk.reader().header();
    assert_eq!(header.next_doc_id, 900);
    let kept = header.opencode_databases.get(&"database".to_string()).unwrap();
    assert!(kept.same(&database()));
}

#[test]
fn checkpoint_artifact_names_are_canonical_and_bounded() {
    for name in [
        "checkpoints.sqlite",
        "checkpoints.sqlite-wal",
        "checkpoints.sqlite-shm",
        "checkpoints.sqlite-journal",
        ".checkpoints.lock",
        "ingest.json",
    ] {
        assert!(is_checkpoint_artifact_name(name));
    }
    assert!(is_checkpoint_artifact_name(&format!(
        "ingest.legacy-{}.json",
        "a".repeat(64)
    )));
    for name in [
        "checkpoints.sqlite-session.jsonl",
        "ingest.legacy-x.json",
        "my-checkpoints.sqlite",
        "session.jsonl",
    ] {
        assert!(!is_checkpoint_artifact_name(name));
    }
    assert!(is_checkpoint_artifact_name(&format!(
        "ingest.legacy-{}.json",
        "A".repeat(64)
    )));
    assert!(!is_checkpoint_artifact_name(&format!(
        "ingest.legacy-{}.json",
        "a".repeat(63)
    )));
}

#[test]
fn every_broken_directory_is_named() {
    let identity = "e".repeat(64);
    let filled = |version: i64, identity: &str, next_doc_id: &str| DatabaseImage::Filled {
        version,
        identity: identity.to_string(),
        origin: render_receipt(identity),
        contents: StoreContents {
            next_doc_id: next_doc_id.to_string(),
            opencode_databases: SortedMap::new(),
            extras: SortedMap::new(),
            files: SortedMap::new(),
        },
    };
    let marker = AuthorityImage::Marker(identity.clone());
    let lock = render_receipt(&identity);
    let good = filled(1, &identity, "1");
    let read = |authority: &AuthorityImage,
                database: Option<&DatabaseImage>,
                lock: Option<&String>| {
        read_directory(authority, database, lock).map(|document| document.next_doc_id)
    };
    assert_eq!(read(&marker, Some(&good), Some(&lock)), Ok(1));
    assert_eq!(read(&marker, Some(&good), None), Err(ReadError::NoLock));
    assert_eq!(read(&marker, None, Some(&lock)), Err(ReadError::NoDatabase));
    assert_eq!(
        read(&marker, Some(&DatabaseImage::Blank), Some(&lock)),
        Err(ReadError::NoDatabase)
    );
    assert_eq!(
        read(&marker, Some(&filled(2, &identity, "1")), Some(&lock)),
        Err(ReadError::Metadata(MetadataError::UnsupportedFormat))
    );
    assert_eq!(
        read(&marker, Some(&filled(1, "other", "1")), Some(&lock)),
        Err(ReadError::Metadata(MetadataError::IdentityMismatch))
    );
    assert_eq!(
        read(&marker, Some(&filled(1, &identity, "x")), Some(&lock)),
        Err(ReadError::Metadata(MetadataError::NextId(NextIdError::Invalid)))
    );
    let missing = AuthorityImage::Missing;
    assert_eq!(read(&missing, None, None), Ok(1));
    assert_eq!(read(&missing, Some(&good), Some(&lock)), Ok(1));
    assert_eq!(
        read(&missing, Some(&DatabaseImage::Blank), Some(&lock)),
        Ok(1)
    );
    assert_eq!(read(&missing, Some(&good), None), Err(ReadError::NoLock));
    assert_eq!(
        read(&missing, Some(&good), Some(&String::new())),
        Err(ReadError::Receipt(ReceiptError::NoReceipt))
    );
    assert_eq!(
        read(&missing, Some(&filled(1, &identity, "2")), Some(&lock)),
        Err(ReadError::Populated)
    );
}

#[test]
fn removed_entities_lose_their_extensions() {
    let mut disk = Disk::default();
    extended_legacy(&mut disk);
    disk.open_writer(false, None).unwrap();
    let mut removal = CheckpointDelta::default();
    removal.deletes.insert(ODD_PATH.to_string());
    removal.opencode_databases = Some(SortedMap::new());
    disk.commit(&removal);
    let mut update = upserting(ODD_PATH, file(1));
    let mut databases = SortedMap::new();
    databases.insert("database".to_string(), database());
    update.opencode_databases = Some(databases);
    disk.commit(&update);
    let exported = disk.export();
    assert_eq!(exported["files"][ODD_PATH], file_value(&file(1)));
    assert_eq!(
        exported["opencode_databases"]["database"],
        database_value(&database())
    );
    assert!(exported.get("extension").is_some());
}

#[test]
fn a_database_without_authority_is_accepted_only_if_it_is_empty() {
    let identity = "0".repeat(64);
    let row = |next_doc_id: &str, has_files: bool| RemainsRow {
        origin: render_receipt(&identity),
        next_doc_id: next_doc_id.to_string(),
        opencode_databases: "{}".to_string(),
        extras: "{}".to_string(),
        has_files,
    };
    assert_eq!(remains_step(0, None, &identity), RemainsStep::Accept);
    assert_eq!(remains_step(2, None, &identity), RemainsStep::ReadMetadata);
    let step = |row: RemainsRow| remains_step(2, Some(&row), &identity);
    assert_eq!(step(row("1", false)), RemainsStep::Accept);
    assert_eq!(step(row("2", false)), RemainsStep::Refuse);
    assert_eq!(step(row("1", true)), RemainsStep::Refuse);
    assert_eq!(
        remains_step(2, Some(&row("1", false)), &"1".repeat(64)),
        RemainsStep::Refuse
    );
}
