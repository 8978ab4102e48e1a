//! What a refresh learns of a single transcript file: whether it can have changed, what
//! identifies its contents, and from where it has to be read.

use vstd::prelude::*;
use crate::keys::TextMap;
use crate::lifecycle::digest_text;
use crate::model::Modeled;
use crate::outside::sha256_of;
use crate::path::FilePath;
use crate::sorted::SortedMap;
use crate::state::{
    FileIdentity, FileModel, FileState, IdentityModel, PendingToolCall, ToolCallModel,
};
use crate::text::hex_of;

verus! {

/// The number of leading bytes by which a file is identified.
pub const FILE_IDENTITY_PREFIX_BYTES: u64 = 4_096;

/// The nanoseconds of a second.
pub const NANOS_PER_SECOND: i64 = 1_000_000_000;

/// Where a transcript comes from.
#[derive(Clone, Copy, Debug, PartialEq, Eq, Structural)]
pub enum SourceKind {
    Claude,
    Codex,
    Opencode,
    Cursor,
    Pi,
    Omp,
    Openclaw,
    Copilot,
    Grok,
    Jcode,
    Muse,
    Antigravity,
}

/// What happened to a file since it was last read.
#[derive(Clone, Copy, Debug, PartialEq, Eq, Structural)]
pub enum FileChange {
    New,
    Unchanged,
    Append,
    Replaced,
    ParserChanged,
}

impl FileChange {
    /// The records read from the file before are of no use.
    pub open spec fn replaces(self) -> bool {
        self == FileChange::Replaced || self == FileChange::ParserChanged
    }

    /// Whether the records read from the file before are of no use.
    pub fn replaces_records(self) -> (result: bool)
        ensures
            result == self.replaces(),
    {
        match self {
            FileChange::Replaced => true,
            FileChange::ParserChanged => true,
            _ => false,
        }
    }
}

/// A time after the epoch, in seconds and nanoseconds.
#[derive(Clone, Copy, Debug, PartialEq, Eq, Structural)]
pub struct SinceEpoch {
    pub seconds: u64,
    pub nanos: u32,
}

/// A change time as the system reports it, in seconds and nanoseconds.
#[derive(Clone, Copy, Debug, PartialEq, Eq, Structural)]
pub struct ChangeTime {
    pub seconds: i64,
    pub nanos: i64,
}

/// The metadata of a file, as far as the system provides it.
#[derive(Clone, Copy, Debug, PartialEq, Eq, Structural)]
pub struct FileMetadata {
    pub len: u64,
    pub is_file: bool,
    pub device: Option<u64>,
    pub inode: Option<u64>,
    pub modified: Option<SinceEpoch>,
    pub changed: Option<ChangeTime>,
}

/// The nearest machine integer.
pub open spec fn clamped(value: int) -> i64 {
    if value > i64::MAX {
        i64::MAX
    } else if value < i64::MIN {
        i64::MIN
    } else {
        value as i64
    }
}

impl FileMetadata {
    /// The modification time in nanoseconds, or the largest machine integer.
    pub open spec fn modified_nanos(self) -> Option<i64> {
        match self.modified {
            Some(time) => Some(clamped(time.seconds * NANOS_PER_SECOND + time.nanos)),
            None => None,
        }
    }

    /// The change time in nanoseconds, each operation stopping at the bounds of machine
    /// integers. A time without a fraction is taken for one that is not precise enough.
    pub open spec fn changed_nanos(self) -> Option<i64> {
        match self.changed {
            Some(time) => if time.nanos != 0 {
                Some(clamped(clamped(time.seconds * NANOS_PER_SECOND) + time.nanos))
            } else {
                None
            },
            None => None,
        }
    }

    /// The modification time in whole seconds, or zero where it is unknown.
    pub open spec fn modified_seconds(self) -> i64 {
        match self.modified {
            Some(time) => time.seconds as i64,
            None => 0,
        }
    }
}

/// The modification time in nanoseconds.
pub fn modified_ns(metadata: &FileMetadata) -> (nanos: Option<i64>)
    ensures
        nanos == metadata.modified_nanos(),
{
    match metadata.modified {
        Some(time) => {
            let total: u128 = time.seconds as u128 * 1_000_000_000 + time.nanos as u128;
            if total > i64::MAX as u128 {
                Some(i64::MAX)
            } else {
                Some(total as i64)
            }
        },
        None => None,
    }
}

fn clamp(value: i128) -> (result: i64)
    ensures
        result == clamped(value as int),
{
    if value > i64::MAX as i128 {
        i64::MAX
    } else if value < i64::MIN as i128 {
        i64::MIN
    } else {
        value as i64
    }
}

/// The change time in nanoseconds.
pub fn changed_ns(metadata: &FileMetadata) -> (nanos: Option<i64>)
    ensures
        nanos == metadata.changed_nanos(),
{
    match metadata.changed {
        Some(time) => if time.nanos != 0 {
            let scaled = clamp(time.seconds as i128 * 1_000_000_000);
            Some(clamp(scaled as i128 + time.nanos as i128))
        } else {
            None
        },
        None => None,
    }
}

/// The metadata shows the file in the very state in which it was last read by this parser.
pub open spec fn metadata_unchanged(
    previous: FileModel,
    metadata: FileMetadata,
    parser_version: u32,
) -> bool {
    &&& previous.size == metadata.len
    &&& previous.parser_version == parser_version
    &&& metadata.device is Some && previous.identity.device == metadata.device
    &&& metadata.inode is Some && previous.identity.inode == metadata.inode
    &&& previous.identity.modified_ns is Some
    &&& previous.identity.modified_ns == metadata.modified_nanos()
    &&& previous.identity.changed_ns is Some
    &&& previous.identity.changed_ns == metadata.changed_nanos()
}

/// Whether the metadata shows the file in the very state in which it was last read.
pub fn unchanged_file_metadata(
    previous: &FileState,
    metadata: &FileMetadata,
    parser_version: u32,
) -> (result: bool)
    ensures
        result == metadata_unchanged(previous.deep_view(), *metadata, parser_version),
{
    previous.size == metadata.len && previous.parser_version == parser_version
        && metadata.device.is_some() && previous.identity.device == metadata.device
        && metadata.inode.is_some() && previous.identity.inode == metadata.inode
        && previous.identity.modified_ns.is_some() && previous.identity.modified_ns == modified_ns(
        metadata,
    ) && previous.identity.changed_ns.is_some() && previous.identity.changed_ns == changed_ns(
        metadata,
    )
}

/// A change of size, device, inode, modification or change time, or of the parser, is always
/// noticed.
pub proof fn law_metadata_changes_are_noticed(
    previous: FileModel,
    metadata: FileMetadata,
    parser_version: u32,
)
    requires
        previous.size != metadata.len || previous.parser_version != parser_version
            || previous.identity.device != metadata.device || previous.identity.inode
            != metadata.inode || previous.identity.modified_ns != metadata.modified_nanos()
            || previous.identity.changed_ns != metadata.changed_nanos(),
    ensures
        !metadata_unchanged(previous, metadata, parser_version),
{
}

/// The number of leading bytes by which the file is identified: as many as before, but no more
/// than it has.
pub open spec fn prefix_length(size: u64, previous: Option<FileModel>) -> u64 {
    let wanted = match previous {
        Some(state) => if state.identity.prefix_bytes > 0 {
            state.identity.prefix_bytes
        } else if state.size < FILE_IDENTITY_PREFIX_BYTES {
            state.size
        } else {
            FILE_IDENTITY_PREFIX_BYTES
        },
        None => if size < FILE_IDENTITY_PREFIX_BYTES {
            size
        } else {
            FILE_IDENTITY_PREFIX_BYTES
        },
    };
    if wanted < size {
        wanted
    } else {
        size
    }
}

fn smaller(left: u64, right: u64) -> (result: u64)
    ensures
        result == (if left < right {
            left
        } else {
            right
        }),
{
    if left < right {
        left
    } else {
        right
    }
}

/// The number of leading bytes to read for the identity of a file.
pub fn prefix_bytes(size: u64, previous: Option<&FileState>) -> (count: u64)
    ensures
        count == prefix_length(size, previous.deep_view()),
{
    let wanted = match previous {
        Some(state) => if state.identity.prefix_bytes > 0 {
            state.identity.prefix_bytes
        } else {
            smaller(state.size, FILE_IDENTITY_PREFIX_BYTES)
        },
        None => smaller(size, FILE_IDENTITY_PREFIX_BYTES),
    };
    smaller(wanted, size)
}

/// The identity of a file with these leading bytes, as far as they could be read.
pub open spec fn identity_from(
    metadata: FileMetadata,
    count: u64,
    prefix: Option<Seq<u8>>,
) -> IdentityModel {
    IdentityModel {
        sqlite_wal: None,
        device: metadata.device,
        inode: metadata.inode,
        prefix_sha256: match prefix {
            Some(bytes) => if metadata.is_file {
                Some(hex_of(sha256_of(bytes)))
            } else {
                None
            },
            None => None,
        },
        prefix_bytes: count,
        modified_ns: metadata.modified_nanos(),
        changed_ns: metadata.changed_nanos(),
    }
}

/// The identity of a file whose first `count` bytes were asked for. `prefix` holds what could
/// be read of them.
pub fn file_identity(metadata: &FileMetadata, count: u64, prefix: Option<&Vec<u8>>) -> (identity:
    FileIdentity)
    ensures
        identity.deep_view() == identity_from(
            *metadata,
            count,
            match prefix {
                Some(bytes) => Some(bytes@),
                None => None,
            },
        ),
{
    let prefix_sha256 = match prefix {
        Some(bytes) => if metadata.is_file {
            Some(digest_text(bytes.as_slice()))
        } else {
            None
        },
        None => None,
    };
    FileIdentity {
        sqlite_wal: None,
        device: metadata.device,
        inode: metadata.inode,
        prefix_sha256,
        prefix_bytes: count,
        modified_ns: modified_ns(metadata),
        changed_ns: changed_ns(metadata),
    }
}

/// The identity of a file as a refresh records it: the known one while the metadata shows no
/// change, else the one just read. A database's write-ahead log is always looked at anew.
pub open spec fn current_identity(
    previous: Option<FileModel>,
    metadata: FileMetadata,
    parser_version: u32,
    prefix: Option<Seq<u8>>,
    wal: Option<Seq<char>>,
) -> IdentityModel {
    let base = match previous {
        Some(state) => if metadata_unchanged(state, metadata, parser_version) {
            state.identity
        } else {
            identity_from(metadata, prefix_length(metadata.len, previous), prefix)
        },
        None => identity_from(metadata, prefix_length(metadata.len, previous), prefix),
    };
    match wal {
        Some(_) => IdentityModel { sqlite_wal: wal, ..base },
        None => base,
    }
}

/// Whether the leading bytes of a file have to be read for its identity.
pub fn needs_prefix(
    previous: Option<&FileState>,
    metadata: &FileMetadata,
    parser_version: u32,
) -> (result: bool)
    ensures
        result == !(previous.deep_view() matches Some(state) && metadata_unchanged(
            state,
            *metadata,
            parser_version,
        )),
{
    match previous {
        Some(state) => !unchanged_file_metadata(state, metadata, parser_version),
        None => true,
    }
}

/// The identity of a file as a refresh records it.
pub fn observed_identity(
    previous: Option<&FileState>,
    metadata: &FileMetadata,
    parser_version: u32,
    prefix: Option<&Vec<u8>>,
    wal: Option<String>,
) -> (identity: FileIdentity)
    ensures
        identity.deep_view() == current_identity(
            previous.deep_view(),
            *metadata,
            parser_version,
            match prefix {
                Some(bytes) => Some(bytes@),
                None => None,
            },
            wal.deep_view(),
        ),
{
    let base = match previous {
        Some(state) => if unchanged_file_metadata(state, metadata, parser_version) {
            state.identity.duplicate()
        } else {
            file_identity(metadata, prefix_bytes(metadata.len, previous), prefix)
        },
        None => file_identity(metadata, prefix_bytes(metadata.len, previous), prefix),
    };
    match wal {
        Some(fingerprint) => FileIdentity {
            sqlite_wal: Some(fingerprint),
            device: base.device,
            inode: base.inode,
            prefix_sha256: base.prefix_sha256,
            prefix_bytes: base.prefix_bytes,
            modified_ns: base.modified_ns,
            changed_ns: base.changed_ns,
        },
        None => base,
    }
}

/// Whether a transcript is a background session, and whether finding that out late makes it
/// necessary to read the whole transcript again.
#[derive(Clone, Copy, Debug, PartialEq, Eq, Structural)]
pub struct ClaudeBackground {
    pub background: Option<bool>,
    pub reparse: bool,
}

/// Nothing is known.
pub open spec fn unknown_background() -> ClaudeBackground {
    ClaudeBackground { background: None, reparse: false }
}

impl Default for ClaudeBackground {
    fn default() -> (background: Self)
        ensures
            background == unknown_background(),
    {
        ClaudeBackground { background: None, reparse: false }
    }
}

/// From where the transcript has to be searched for the mark of a background session, if it
/// has to be: state that does not tell needs the whole transcript, state that says no needs
/// what was added since.
pub open spec fn background_search(
    source: SourceKind,
    size: u64,
    previous: Option<FileModel>,
    change: FileChange,
) -> Option<u64> {
    match previous {
        Some(state) => if source != SourceKind::Claude || change.replaces() {
            None
        } else {
            match state.claude_background {
                Some(true) => None,
                Some(false) => if size > state.offset {
                    Some(state.offset)
                } else {
                    None
                },
                None => Some(0),
            }
        },
        None => None,
    }
}

/// From where the transcript has to be searched for the mark of a background session.
pub fn background_probe(
    source: SourceKind,
    size: u64,
    previous: Option<&FileState>,
    change: FileChange,
) -> (from: Option<u64>)
    ensures
        from == background_search(source, size, previous.deep_view(), change),
{
    if source != SourceKind::Claude || change.replaces_records() {
        return None;
    }
    match previous {
        Some(state) => match state.claude_background {
            Some(true) => None,
            Some(false) => if size > state.offset {
                Some(state.offset)
            } else {
                None
            },
            None => Some(0),
        },
        None => None,
    }
}

/// What is known of a background session after the search. `found` is what the search found,
/// or none where the transcript could not be read: an added part that cannot be read counts as
/// if it held the mark.
pub open spec fn background_after(
    source: SourceKind,
    size: u64,
    previous: Option<FileModel>,
    change: FileChange,
    found: Option<bool>,
) -> ClaudeBackground {
    if source != SourceKind::Claude || change.replaces() {
        unknown_background()
    } else {
        match previous {
            None => unknown_background(),
            Some(state) => match state.claude_background {
                Some(true) => ClaudeBackground { background: Some(true), reparse: false },
                Some(false) => if size > state.offset && found != Some(false) {
                    ClaudeBackground { background: None, reparse: true }
                } else {
                    ClaudeBackground { background: Some(false), reparse: false }
                },
                None => ClaudeBackground {
                    background: found,
                    reparse: found == Some(true) && state.offset > 0,
                },
            },
        }
    }
}

/// Decides what is known of a background session after the search.
pub fn resolve_claude_background(
    source: SourceKind,
    size: u64,
    previous: Option<&FileState>,
    change: FileChange,
    found: Option<bool>,
) -> (resolved: ClaudeBackground)
    ensures
        resolved == background_after(source, size, previous.deep_view(), change, found),
{
    if source != SourceKind::Claude {
        return ClaudeBackground::default();
    }
    if change.replaces_records() {
        return ClaudeBackground::default();
    }
    let state = match previous {
        Some(state) => state,
        None => {
            return ClaudeBackground::default();
        },
    };
    match state.claude_background {
        Some(true) => ClaudeBackground { background: Some(true), reparse: false },
        Some(false) => {
            let unmarked = match found {
                Some(marked) => !marked,
                None => false,
            };
            if size > state.offset && !unmarked {
                ClaudeBackground { background: None, reparse: true }
            } else {
                ClaudeBackground { background: Some(false), reparse: false }
            }
        },
        None => {
            let marked = match found {
                Some(marked) => marked,
                None => false,
            };
            ClaudeBackground { background: found, reparse: marked && state.offset > 0 }
        },
    }
}

/// What has to be read of a file, and in which state its parser starts.
pub struct FileTask {
    pub path: FilePath,
    pub source: SourceKind,
    pub offset: u64,
    pub turn_id: u32,
    pub legacy_turn_id: Option<u32>,
    pub size: u64,
    pub mtime: i64,
    pub change: FileChange,
    pub pending_tool_calls: TextMap<PendingToolCall>,
    pub identity: FileIdentity,
    pub parser_version: u32,
    pub codex_metadata_offsets: Option<Vec<u64>>,
    pub claude_background: Option<bool>,
}

/// The model of [`FileTask`].
#[verifier::ext_equal]
pub struct TaskModel {
    pub path: Seq<u8>,
    pub source: SourceKind,
    pub offset: u64,
    pub turn_id: u32,
    pub legacy_turn_id: Option<u32>,
    pub size: u64,
    pub mtime: i64,
    pub change: FileChange,
    pub pending_tool_calls: Map<Seq<char>, ToolCallModel>,
    pub identity: IdentityModel,
    pub parser_version: u32,
    pub codex_metadata_offsets: Option<Seq<u64>>,
    pub claude_background: Option<bool>,
}

impl DeepView for FileTask {
    type V = TaskModel;

    open spec fn deep_view(&self) -> TaskModel {
        TaskModel {
            path: self.path.spelling(),
            source: self.source,
            offset: self.offset,
            turn_id: self.turn_id,
            legacy_turn_id: self.legacy_turn_id,
            size: self.size,
            mtime: self.mtime,
            change: self.change,
            pending_tool_calls: self.pending_tool_calls.deep_view(),
            identity: self.identity.deep_view(),
            parser_version: self.parser_version,
            codex_metadata_offsets: self.codex_metadata_offsets.deep_view(),
            claude_background: self.claude_background,
        }
    }
}

impl FileTask {
    /// Whether the records of the file are removed before it is read.
    pub fn delete_first(&self) -> (result: bool)
        ensures
            result == self.change.replaces(),
    {
        self.change.replaces_records()
    }

    /// Whether the file is read again because its parser changed.
    pub fn parser_version_invalidated(&self) -> (result: bool)
        ensures
            result == (self.change == FileChange::ParserChanged),
    {
        self.change == FileChange::ParserChanged
    }
}

/// The task for a file: it goes on where the last reading stopped if the file only grew or
/// stayed the same, and starts over in every other case.
pub open spec fn prepared(
    path: Seq<u8>,
    source: SourceKind,
    metadata: FileMetadata,
    previous: Option<FileModel>,
    identity: IdentityModel,
    change: FileChange,
    found: Option<bool>,
    parser_version: u32,
) -> TaskModel {
    let claude = background_after(source, metadata.len, previous, change, found);
    let resumes = previous is Some && (change == FileChange::Append || change
        == FileChange::Unchanged) && !claude.reparse;
    let offset = if resumes {
        previous.unwrap().offset
    } else {
        0
    };
    let final_change = if claude.reparse {
        FileChange::Replaced
    } else {
        change
    };
    TaskModel {
        path,
        source,
        offset,
        turn_id: if resumes {
            previous.unwrap().turn_id
        } else {
            0
        },
        legacy_turn_id: if (source == SourceKind::Claude || source == SourceKind::Codex) && offset
            == 0 {
            Some(0)
        } else if previous is Some {
            previous.unwrap().legacy_turn_id
        } else {
            None
        },
        size: metadata.len,
        mtime: metadata.modified_seconds(),
        change: final_change,
        pending_tool_calls: if resumes {
            previous.unwrap().pending_tool_calls
        } else {
            Map::empty()
        },
        identity,
        parser_version,
        codex_metadata_offsets: if previous is Some && source == SourceKind::Codex && offset > 0
            && !final_change.replaces() {
            previous.unwrap().codex_metadata_offsets
        } else {
            None
        },
        claude_background: claude.background,
    }
}

/// Prepares the task for a file, and says whether it can be skipped. `identity` is what the
/// file was found to be, `change` how it compares with its last reading, and `found` what the
/// search for the mark of a background session gave.
pub fn prepare_file_task(
    path: FilePath,
    source: SourceKind,
    metadata: &FileMetadata,
    previous: Option<&FileState>,
    identity: FileIdentity,
    change: FileChange,
    found: Option<bool>,
    parser_version: u32,
) -> (result: (FileTask, bool))
    ensures
        result.0.deep_view() == prepared(
            path.spelling(),
            source,
            *metadata,
            previous.deep_view(),
            identity.deep_view(),
            change,
            found,
            parser_version,
        ),
        result.1 == (result.0.change == FileChange::Unchanged),
{
    let size = metadata.len;
    let mtime = match metadata.modified {
        Some(time) => time.seconds as i64,
        None => 0,
    };
    let claude = resolve_claude_background(source, size, previous, change, found);
    let continues = match change {
        FileChange::Append => true,
        FileChange::Unchanged => true,
        _ => false,
    };
    let mut offset: u64 = 0;
    let mut turn_id: u32 = 0;
    let mut pending_tool_calls: TextMap<PendingToolCall> = SortedMap::new();
    if let Some(state) = previous {
        if continues && !claude.reparse {
            offset = state.offset;
            turn_id = state.turn_id;
            pending_tool_calls = state.pending_tool_calls.duplicate();
        }
    }
    let change = if claude.reparse {
        FileChange::Replaced
    } else {
        change
    };
    let legacy_turn_id = if (source == SourceKind::Claude || source == SourceKind::Codex) && offset
        == 0 {
        Some(0)
    } else {
        match previous {
            Some(state) => state.legacy_turn_id,
            None => None,
        }
    };
    let codex_metadata_offsets = match previous {
        Some(state) => if source == SourceKind::Codex && offset > 0 && !change.replaces_records() {
            state.codex_metadata_offsets.duplicate()
        } else {
            None
        },
        None => None,
    };
    let task = FileTask {
        path,
        source,
        offset,
        turn_id,
        legacy_turn_id,
        size,
        mtime,
        change,
        pending_tool_calls,
        identity,
        parser_version,
        codex_metadata_offsets,
        claude_background: claude.background,
    };
    let skip = task.change == FileChange::Unchanged;
    (task, skip)
}

/// A file whose records are of no use is read from its start, with nothing left over from the
/// last reading. So is one that turns out late to be a background session.
pub proof fn law_replaced_files_start_over(
    path: Seq<u8>,
    source: SourceKind,
    metadata: FileMetadata,
    previous: Option<FileModel>,
    identity: IdentityModel,
    change: FileChange,
    found: Option<bool>,
    parser_version: u32,
)
    ensures
        ({
            let task = prepared(
                path,
                source,
                metadata,
                previous,
                identity,
                change,
                found,
                parser_version,
            );
            task.change.replaces() || task.change == FileChange::New ==> task.offset == 0
                && task.turn_id == 0 && task.pending_tool_calls =~= Map::<
                Seq<char>,
                ToolCallModel,
            >::empty() && task.codex_metadata_offsets is None
        }),
{
}

/// What was read once is not read again: where there is a previous state, the change is an
/// append or none, and the records are not replaced, the task goes on at the previous offset,
/// with the previous turn and the tool calls that were left pending. This holds of every source.
pub proof fn law_kept_transcripts_are_read_on(
    path: Seq<u8>,
    source: SourceKind,
    metadata: FileMetadata,
    previous: FileModel,
    identity: IdentityModel,
    change: FileChange,
    found: Option<bool>,
    parser_version: u32,
)
    requires
        change == FileChange::Append || change == FileChange::Unchanged,
    ensures
        ({
            let task = prepared(
                path,
                source,
                metadata,
                Some(previous),
                identity,
                change,
                found,
                parser_version,
            );
            task.change != FileChange::Replaced && task.change != FileChange::ParserChanged ==> {
                &&& task.offset == previous.offset
                &&& task.turn_id == previous.turn_id
                &&& task.pending_tool_calls == previous.pending_tool_calls
                &&& task.change == change
            }
        }),
{
}

/// Everything else is read from the start: a transcript without a previous state, and one that is
/// new or replaced, has no turn and no tool call left over.
pub proof fn law_other_transcripts_are_read_from_the_start(
    path: Seq<u8>,
    source: SourceKind,
    metadata: FileMetadata,
    previous: Option<FileModel>,
    identity: IdentityModel,
    change: FileChange,
    found: Option<bool>,
    parser_version: u32,
)
    ensures
        ({
            let task = prepared(
                path,
                source,
                metadata,
                previous,
                identity,
                change,
                found,
                parser_version,
            );
            previous is None || task.change == FileChange::New || task.change
                == FileChange::Replaced || task.change == FileChange::ParserChanged ==> task.offset
                == 0 && task.turn_id == 0 && task.pending_tool_calls.dom() =~= Set::<
                Seq<char>,
            >::empty() && task.codex_metadata_offsets is None
        }),
{
}

/// Which transcripts are replaced: those whose change says so, and those that turn out to be
/// a background session after a part of them was read as something else. Where the record
/// says that the transcript is none, a mark in the added part, or an added part that cannot be
/// searched, shows it; where the record says nothing, a mark anywhere does.
pub proof fn law_background_sessions_are_read_again(
    path: Seq<u8>,
    source: SourceKind,
    metadata: FileMetadata,
    previous: Option<FileModel>,
    identity: IdentityModel,
    change: FileChange,
    found: Option<bool>,
    parser_version: u32,
)
    ensures
        ({
            let task = prepared(
                path,
                source,
                metadata,
                previous,
                identity,
                change,
                found,
                parser_version,
            );
            let replaced = change == FileChange::Replaced || change == FileChange::ParserChanged;
            let turned = source == SourceKind::Claude && !replaced && previous is Some && {
                let state = previous.unwrap();
                ||| state.claude_background == Some(false) && metadata.len > state.offset && found
                    != Some(false)
                ||| state.claude_background is None && found == Some(true) && state.offset > 0
            };
            &&& turned ==> task.change == FileChange::Replaced && task.offset == 0
            &&& !turned ==> task.change == change
            &&& task.path == path && task.source == source && task.size == metadata.len
            &&& task.identity == identity && task.parser_version == parser_version
            &&& metadata.modified is Some ==> task.mtime == metadata.modified.unwrap().seconds as i64
            &&& metadata.modified is None ==> task.mtime == 0
        }),
{
}

/// What a task says about background sessions. Only a kept transcript, of the source that has
/// them, can be known to be one or none: one stays one, one that is none stays none until the
/// added part says otherwise, and one that nothing was known of is what the search found.
pub proof fn law_background_is_remembered(
    path: Seq<u8>,
    source: SourceKind,
    metadata: FileMetadata,
    previous: Option<FileModel>,
    identity: IdentityModel,
    change: FileChange,
    found: Option<bool>,
    parser_version: u32,
)
    ensures
        ({
            let known = prepared(
                path,
                source,
                metadata,
                previous,
                identity,
                change,
                found,
                parser_version,
            ).claude_background;
            let kept = source == SourceKind::Claude && change != FileChange::Replaced && change
                != FileChange::ParserChanged && previous is Some;
            let state = previous.unwrap();
            &&& !kept ==> known is None
            &&& kept && state.claude_background == Some(true) ==> known == Some(true)
            &&& kept && state.claude_background == Some(false) && (metadata.len <= state.offset
                || found == Some(false)) ==> known == Some(false)
            &&& kept && state.claude_background == Some(false) && metadata.len > state.offset
                && found != Some(false) ==> known is None
            &&& kept && state.claude_background is None ==> known == found
        }),
{
}

/// Where the mark of a background session is searched: nowhere unless the source has them and
/// the transcript is kept, in the added part of one that had none, and everywhere in one that nothing is known of.
/// Where nothing is searched, it does not matter what a search would find.
pub proof fn law_background_is_searched_where_it_matters(
    source: SourceKind,
    size: u64,
    previous: Option<FileModel>,
    change: FileChange,
    found: Option<bool>,
    other: Option<bool>,
)
    ensures
        ({
            let from = background_search(source, size, previous, change);
            let kept = source == SourceKind::Claude && change != FileChange::Replaced && change
                != FileChange::ParserChanged && previous is Some;
            let state = previous.unwrap();
            &&& !kept ==> from is None
            &&& kept && state.claude_background == Some(true) ==> from is None
            &&& kept && state.claude_background == Some(false) ==> (from is Some <==> size
                > state.offset) && (from is Some ==> from == Some(state.offset))
            &&& kept && state.claude_background is None ==> from == Some(0u64)
            &&& from is None ==> background_after(source, size, previous, change, found)
                == background_after(source, size, previous, change, other)
        }),
{
}

/// Codex, and the source that has background sessions, number the turns of a transcript anew that
/// is read from the start. Otherwise the earlier numbering is kept. Where Codex put its metadata is remembered only while the
/// transcript is read on.
pub proof fn law_numbering_is_kept_while_reading_on(
    path: Seq<u8>,
    source: SourceKind,
    metadata: FileMetadata,
    previous: Option<FileModel>,
    identity: IdentityModel,
    change: FileChange,
    found: Option<bool>,
    parser_version: u32,
)
    ensures
        ({
            let task = prepared(
                path,
                source,
                metadata,
                previous,
                identity,
                change,
                found,
                parser_version,
            );
            let numbered = source == SourceKind::Claude || source == SourceKind::Codex;
            &&& numbered && task.offset == 0 ==> task.legacy_turn_id == Some(0u32)
            &&& !(numbered && task.offset == 0) && previous is Some ==> task.legacy_turn_id
                == previous.unwrap().legacy_turn_id
            &&& !(numbered && task.offset == 0) && previous is None ==> task.legacy_turn_id is None
            &&& source != SourceKind::Codex || task.offset == 0 || previous is None
                ==> task.codex_metadata_offsets is None
            &&& source == SourceKind::Codex && previous is Some && previous.unwrap().offset > 0 && (
            change == FileChange::Append || change == FileChange::Unchanged)
                ==> task.codex_metadata_offsets == previous.unwrap().codex_metadata_offsets
        }),
{
}

/// Records are replaced by exactly two kinds of change.
pub proof fn law_replacing_changes(change: FileChange)
    ensures
        change.replaces() <==> change == FileChange::Replaced || change
            == FileChange::ParserChanged,
{
}

/// A time of modification or change is its nanoseconds since the epoch as far as they can be
/// counted, and an end of the range beyond. Times keep their order. A change time without a part
/// of a second is not told.
pub proof fn law_times_count_nanoseconds(
    metadata: FileMetadata,
    later: FileMetadata,
    modified: SinceEpoch,
    behind: SinceEpoch,
    changed: ChangeTime,
)
    requires
        metadata.modified == Some(modified),
        later.modified == Some(behind),
        metadata.changed == Some(changed),
    ensures
        ({
            let total = modified.seconds * 1_000_000_000 + modified.nanos;
            let told = changed.seconds * 1_000_000_000 + changed.nanos;
            &&& total <= i64::MAX ==> metadata.modified_nanos() == Some(total as i64)
            &&& total > i64::MAX ==> metadata.modified_nanos() == Some(i64::MAX)
            &&& total <= behind.seconds * 1_000_000_000 + behind.nanos
                ==> metadata.modified_nanos().unwrap() <= later.modified_nanos().unwrap()
            &&& changed.nanos == 0 ==> metadata.changed_nanos() is None
            &&& changed.nanos != 0 && i64::MIN <= changed.seconds * 1_000_000_000 <= i64::MAX
                && i64::MIN <= told <= i64::MAX ==> metadata.changed_nanos() == Some(told as i64)
        }),
{
}

/// Metadata is unchanged exactly if nothing that is on record differs, and nothing of it is
/// missing.
pub proof fn law_same_metadata_is_unchanged(
    previous: FileModel,
    metadata: FileMetadata,
    parser_version: u32,
)
    ensures
        metadata_unchanged(previous, metadata, parser_version) <==> previous.size == metadata.len
            && previous.parser_version == parser_version && metadata.device is Some
            && metadata.inode is Some && previous.identity.modified_ns is Some
            && previous.identity.changed_ns is Some && previous.identity.device == metadata.device
            && previous.identity.inode == metadata.inode && previous.identity.modified_ns
            == metadata.modified_nanos() && previous.identity.changed_ns
            == metadata.changed_nanos(),
{
}

/// A file is told by its first bytes: as many as were told it by before, and at most as many as
/// it has. Without such a record it is told by no more than a fixed number.
pub proof fn law_prefixes_can_be_compared(size: u64, previous: Option<FileModel>)
    ensures
        ({
            let count = prefix_length(size, previous);
            &&& count <= size
            &&& previous is None ==> count == size || count == 4_096
            &&& previous is None ==> count <= 4_096
            &&& previous is Some && previous.unwrap().identity.prefix_bytes > 0 ==> (if size
                < previous.unwrap().identity.prefix_bytes {
                count == size
            } else {
                count == previous.unwrap().identity.prefix_bytes
            })
            &&& previous is Some && previous.unwrap().identity.prefix_bytes == 0 ==> count <= 4_096
                && count <= previous.unwrap().size && (count == size || count == 4_096 || count
                == previous.unwrap().size)
        }),
{
}

/// The identity of a file that has not changed is the one on record. Otherwise it tells what the
/// system says now, and the digest of the first bytes of a regular file. A write-ahead log is
/// told wherever there is one.
pub proof fn law_identities_tell_what_is_there(
    previous: Option<FileModel>,
    metadata: FileMetadata,
    parser_version: u32,
    prefix: Option<Seq<u8>>,
    wal: Option<Seq<char>>,
)
    ensures
        ({
            let identity = current_identity(previous, metadata, parser_version, prefix, wal);
            let kept = previous is Some && metadata_unchanged(
                previous.unwrap(),
                metadata,
                parser_version,
            );
            &&& wal is Some ==> identity.sqlite_wal == wal
            &&& kept ==> identity == (IdentityModel {
                sqlite_wal: if wal is Some {
                    wal
                } else {
                    previous.unwrap().identity.sqlite_wal
                },
                ..previous.unwrap().identity
            })
            &&& !kept ==> identity.device == metadata.device && identity.inode == metadata.inode
                && identity.modified_ns == metadata.modified_nanos() && identity.changed_ns
                == metadata.changed_nanos() && identity.prefix_bytes == prefix_length(
                metadata.len,
                previous,
            ) && identity.sqlite_wal == wal
            &&& !kept && metadata.is_file && prefix is Some ==> identity.prefix_sha256 == Some(
                hex_of(sha256_of(prefix.unwrap())),
            )
            &&& !kept && (!metadata.is_file || prefix is None) ==> identity.prefix_sha256 is None
        }),
{
}

} // verus!
