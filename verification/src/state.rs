//! The checkpoint of a refresh: per file how far it was read, per session database what it
//! owns, and the next document id.

use vstd::prelude::*;
use crate::keys::{TextMap, TextSet};
use crate::model::Modeled;
use crate::sorted::SortedMap;

verus! {

/// A tool call whose result was not seen yet.
pub struct PendingToolCall {
    pub tool_name: Option<String>,
    pub tool_use_event_id: Option<String>,
    pub tool_use_doc_id: Option<u64>,
    pub timestamp: u64,
    pub argument_sha256: Option<String>,
    pub argument_bytes: Option<u64>,
    pub parent_event_id: Option<String>,
    pub session_id: Option<String>,
    pub source_tool_use_id: Option<String>,
    pub source_tool_assistant_uuid: Option<String>,
}

/// The model of [`PendingToolCall`].
#[verifier::ext_equal]
pub struct ToolCallModel {
    pub tool_name: Option<Seq<char>>,
    pub tool_use_event_id: Option<Seq<char>>,
    pub tool_use_doc_id: Option<u64>,
    pub timestamp: u64,
    pub argument_sha256: Option<Seq<char>>,
    pub argument_bytes: Option<u64>,
    pub parent_event_id: Option<Seq<char>>,
    pub session_id: Option<Seq<char>>,
    pub source_tool_use_id: Option<Seq<char>>,
    pub source_tool_assistant_uuid: Option<Seq<char>>,
}

impl DeepView for PendingToolCall {
    type V = ToolCallModel;

    open spec fn deep_view(&self) -> ToolCallModel {
        ToolCallModel {
            tool_name: self.tool_name.deep_view(),
            tool_use_event_id: self.tool_use_event_id.deep_view(),
            tool_use_doc_id: self.tool_use_doc_id.deep_view(),
            timestamp: self.timestamp.deep_view(),
            argument_sha256: self.argument_sha256.deep_view(),
            argument_bytes: self.argument_bytes.deep_view(),
            parent_event_id: self.parent_event_id.deep_view(),
            session_id: self.session_id.deep_view(),
            source_tool_use_id: self.source_tool_use_id.deep_view(),
            source_tool_assistant_uuid: self.source_tool_assistant_uuid.deep_view(),
        }
    }
}

impl Modeled for PendingToolCall {
    fn duplicate(&self) -> (copy: Self) {
        PendingToolCall {
            tool_name: self.tool_name.duplicate(),
            tool_use_event_id: self.tool_use_event_id.duplicate(),
            tool_use_doc_id: self.tool_use_doc_id.duplicate(),
            timestamp: self.timestamp.duplicate(),
            argument_sha256: self.argument_sha256.duplicate(),
            argument_bytes: self.argument_bytes.duplicate(),
            parent_event_id: self.parent_event_id.duplicate(),
            session_id: self.session_id.duplicate(),
            source_tool_use_id: self.source_tool_use_id.duplicate(),
            source_tool_assistant_uuid: self.source_tool_assistant_uuid.duplicate(),
        }
    }

    fn same(&self, other: &Self) -> (equal: bool) {
        self.tool_name.same(&other.tool_name)
            && self.tool_use_event_id.same(&other.tool_use_event_id)
            && self.tool_use_doc_id.same(&other.tool_use_doc_id)
            && self.timestamp.same(&other.timestamp)
            && self.argument_sha256.same(&other.argument_sha256)
            && self.argument_bytes.same(&other.argument_bytes)
            && self.parent_event_id.same(&other.parent_event_id)
            && self.session_id.same(&other.session_id)
            && self.source_tool_use_id.same(&other.source_tool_use_id)
            && self.source_tool_assistant_uuid.same(&other.source_tool_assistant_uuid)
    }
}

impl Default for PendingToolCall {
    fn default() -> (call: Self)
        ensures
            call.deep_view() == (ToolCallModel {
                tool_name: None,
                tool_use_event_id: None,
                tool_use_doc_id: None,
                timestamp: 0,
                argument_sha256: None,
                argument_bytes: None,
                parent_event_id: None,
                session_id: None,
                source_tool_use_id: None,
                source_tool_assistant_uuid: None,
            }),
    {
        PendingToolCall {
            tool_name: None,
            tool_use_event_id: None,
            tool_use_doc_id: None,
            timestamp: 0,
            argument_sha256: None,
            argument_bytes: None,
            parent_event_id: None,
            session_id: None,
            source_tool_use_id: None,
            source_tool_assistant_uuid: None,
        }
    }
}

/// What identifies the contents of a file.
pub struct FileIdentity {
    pub sqlite_wal: Option<String>,
    pub device: Option<u64>,
    pub inode: Option<u64>,
    pub prefix_sha256: Option<String>,
    pub prefix_bytes: u64,
    pub modified_ns: Option<i64>,
    pub changed_ns: Option<i64>,
}

/// The model of [`FileIdentity`].
#[verifier::ext_equal]
pub struct IdentityModel {
    pub sqlite_wal: Option<Seq<char>>,
    pub device: Option<u64>,
    pub inode: Option<u64>,
    pub prefix_sha256: Option<Seq<char>>,
    pub prefix_bytes: u64,
    pub modified_ns: Option<i64>,
    pub changed_ns: Option<i64>,
}

impl DeepView for FileIdentity {
    type V = IdentityModel;

    open spec fn deep_view(&self) -> IdentityModel {
        IdentityModel {
            sqlite_wal: self.sqlite_wal.deep_view(),
            device: self.device.deep_view(),
            inode: self.inode.deep_view(),
            prefix_sha256: self.prefix_sha256.deep_view(),
            prefix_bytes: self.prefix_bytes.deep_view(),
            modified_ns: self.modified_ns.deep_view(),
            changed_ns: self.changed_ns.deep_view(),
        }
    }
}

impl Modeled for FileIdentity {
    fn duplicate(&self) -> (copy: Self) {
        FileIdentity {
            sqlite_wal: self.sqlite_wal.duplicate(),
            device: self.device.duplicate(),
            inode: self.inode.duplicate(),
            prefix_sha256: self.prefix_sha256.duplicate(),
            prefix_bytes: self.prefix_bytes.duplicate(),
            modified_ns: self.modified_ns.duplicate(),
            changed_ns: self.changed_ns.duplicate(),
        }
    }

    fn same(&self, other: &Self) -> (equal: bool) {
        self.sqlite_wal.same(&other.sqlite_wal)
            && self.device.same(&other.device)
            && self.inode.same(&other.inode)
            && self.prefix_sha256.same(&other.prefix_sha256)
            && self.prefix_bytes.same(&other.prefix_bytes)
            && self.modified_ns.same(&other.modified_ns)
            && self.changed_ns.same(&other.changed_ns)
    }
}

impl Default for FileIdentity {
    fn default() -> (identity: Self)
        ensures
            identity.deep_view() == (IdentityModel {
                sqlite_wal: None,
                device: None,
                inode: None,
                prefix_sha256: None,
                prefix_bytes: 0,
                modified_ns: None,
                changed_ns: None,
            }),
    {
        FileIdentity {
            sqlite_wal: None,
            device: None,
            inode: None,
            prefix_sha256: None,
            prefix_bytes: 0,
            modified_ns: None,
            changed_ns: None,
        }
    }
}

/// How far a file has been read, and in which state its parser stopped.
pub struct FileState {
    pub size: u64,
    pub mtime: i64,
    pub offset: u64,
    pub turn_id: u32,
    pub legacy_turn_id: Option<u32>,
    pub claude_background: Option<bool>,
    pub parser_version: u32,
    pub pending_tool_calls: TextMap<PendingToolCall>,
    pub identity: FileIdentity,
    pub codex_metadata_offsets: Option<Vec<u64>>,
}

/// The model of [`FileState`].
#[verifier::ext_equal]
pub struct FileModel {
    pub size: u64,
    pub mtime: i64,
    pub offset: u64,
    pub turn_id: u32,
    pub legacy_turn_id: Option<u32>,
    pub claude_background: Option<bool>,
    pub parser_version: u32,
    pub pending_tool_calls: Map<Seq<char>, ToolCallModel>,
    pub identity: IdentityModel,
    pub codex_metadata_offsets: Option<Seq<u64>>,
}

impl DeepView for FileState {
    type V = FileModel;

    open spec fn deep_view(&self) -> FileModel {
        FileModel {
            size: self.size.deep_view(),
            mtime: self.mtime.deep_view(),
            offset: self.offset.deep_view(),
            turn_id: self.turn_id.deep_view(),
            legacy_turn_id: self.legacy_turn_id.deep_view(),
            claude_background: self.claude_background.deep_view(),
            parser_version: self.parser_version.deep_view(),
            pending_tool_calls: self.pending_tool_calls.deep_view(),
            identity: self.identity.deep_view(),
            codex_metadata_offsets: self.codex_metadata_offsets.deep_view(),
        }
    }
}

impl Modeled for FileState {
    fn duplicate(&self) -> (copy: Self) {
        FileState {
            size: self.size.duplicate(),
            mtime: self.mtime.duplicate(),
            offset: self.offset.duplicate(),
            turn_id: self.turn_id.duplicate(),
            legacy_turn_id: self.legacy_turn_id.duplicate(),
            claude_background: self.claude_background.duplicate(),
            parser_version: self.parser_version.duplicate(),
            pending_tool_calls: self.pending_tool_calls.duplicate(),
            identity: self.identity.duplicate(),
            codex_metadata_offsets: self.codex_metadata_offsets.duplicate(),
        }
    }

    fn same(&self, other: &Self) -> (equal: bool) {
        self.size.same(&other.size)
            && self.mtime.same(&other.mtime)
            && self.offset.same(&other.offset)
            && self.turn_id.same(&other.turn_id)
            && self.legacy_turn_id.same(&other.legacy_turn_id)
            && self.claude_background.same(&other.claude_background)
            && self.parser_version.same(&other.parser_version)
            && self.pending_tool_calls.same(&other.pending_tool_calls)
            && self.identity.same(&other.identity)
            && self.codex_metadata_offsets.same(&other.codex_metadata_offsets)
    }
}

/// How far a session database has been read, and which sessions it owns.
pub struct OpencodeDatabaseState {
    pub parser_version: u32,
    pub event_rowid: i64,
    pub event_id: Option<String>,
    pub owned_session_ids: TextSet,
}

/// The model of [`OpencodeDatabaseState`].
#[verifier::ext_equal]
pub struct DatabaseModel {
    pub parser_version: u32,
    pub event_rowid: i64,
    pub event_id: Option<Seq<char>>,
    pub owned_session_ids: Set<Seq<char>>,
}

impl DeepView for OpencodeDatabaseState {
    type V = DatabaseModel;

    open spec fn deep_view(&self) -> DatabaseModel {
        DatabaseModel {
            parser_version: self.parser_version.deep_view(),
            event_rowid: self.event_rowid.deep_view(),
            event_id: self.event_id.deep_view(),
            owned_session_ids: self.owned_session_ids.deep_view(),
        }
    }
}

impl Modeled for OpencodeDatabaseState {
    fn duplicate(&self) -> (copy: Self) {
        OpencodeDatabaseState {
            parser_version: self.parser_version.duplicate(),
            event_rowid: self.event_rowid.duplicate(),
            event_id: self.event_id.duplicate(),
            owned_session_ids: self.owned_session_ids.duplicate(),
        }
    }

    fn same(&self, other: &Self) -> (equal: bool) {
        self.parser_version.same(&other.parser_version)
            && self.event_rowid.same(&other.event_rowid)
            && self.event_id.same(&other.event_id)
            && self.owned_session_ids.same(&other.owned_session_ids)
    }
}

/// Everything a refresh resumes from.
pub struct IngestState {
    pub next_doc_id: u64,
    pub files: TextMap<FileState>,
    pub opencode_databases: TextMap<OpencodeDatabaseState>,
}

/// The model of [`IngestState`].
#[verifier::ext_equal]
pub struct StateModel {
    pub next_doc_id: u64,
    pub files: Map<Seq<char>, FileModel>,
    pub opencode_databases: Map<Seq<char>, DatabaseModel>,
}

impl DeepView for IngestState {
    type V = StateModel;

    open spec fn deep_view(&self) -> StateModel {
        StateModel {
            next_doc_id: self.next_doc_id.deep_view(),
            files: self.files.deep_view(),
            opencode_databases: self.opencode_databases.deep_view(),
        }
    }
}

impl Modeled for IngestState {
    fn duplicate(&self) -> (copy: Self) {
        IngestState {
            next_doc_id: self.next_doc_id.duplicate(),
            files: self.files.duplicate(),
            opencode_databases: self.opencode_databases.duplicate(),
        }
    }

    fn same(&self, other: &Self) -> (equal: bool) {
        self.next_doc_id.same(&other.next_doc_id)
            && self.files.same(&other.files)
            && self.opencode_databases.same(&other.opencode_databases)
    }
}

/// The first document id.
pub const FIRST_DOC_ID: u64 = 1;

/// The state before anything was read.
pub open spec fn empty_state() -> StateModel {
    StateModel { next_doc_id: FIRST_DOC_ID, files: Map::empty(), opencode_databases: Map::empty() }
}

impl Default for IngestState {
    fn default() -> (state: Self)
        ensures
            state.deep_view() == empty_state(),
    {
        IngestState {
            next_doc_id: FIRST_DOC_ID,
            files: SortedMap::new(),
            opencode_databases: SortedMap::new(),
        }
    }
}

} // verus!
