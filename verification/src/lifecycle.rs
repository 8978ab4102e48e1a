//! Which file is the authority over the checkpoints, and how authority moves from a single
//! document to the checkpoint database without ever being lost.

use vstd::prelude::*;
use crate::checkpoint::{
    is_artifact, parse_next_id, stored_id, NextIdError, DATABASE, FORMAT_VERSION,
};
use crate::outside::{
    json_shape, random_bytes, read_json, sha256, sha256_of, write_json_string,
};
use crate::path::{copy_bytes, equal_bytes};
use crate::text::{
    decimal, equals, first_mark, hex, hex_of, is_hex_digest, is_identity,
    law_prefixes_and_suffixes, law_texts_are_split_at_the_first_mark, lemma_hex_digits,
    split_once, starts_with, strip_prefix, valid_identity,
};

verus! {

/// What every marker starts with.
pub const MARKER_PREFIX: &'static str = "memex-checkpoints:";

/// The version that markers carry.
pub const MARKER_VERSION: &'static str = "1";

/// What every bootstrap receipt starts with.
pub const RECEIPT_PREFIX: &'static str = "bootstrap:";

/// Why a text is no marker.
#[derive(Clone, Copy, Debug, PartialEq, Eq, Structural)]
pub enum MarkerError {
    UnknownMarker,
    Malformed,
    UnsupportedVersion,
    InvalidIdentity,
}

/// The store identity that a marker names.
pub open spec fn marker_identity(text: Seq<char>) -> Result<Seq<char>, MarkerError> {
    if !starts_with(text, MARKER_PREFIX@) {
        Err(MarkerError::UnknownMarker)
    } else {
        let rest = text.skip(MARKER_PREFIX@.len() as int);
        let at = first_mark(rest, ':') as int;
        if at >= rest.len() {
            Err(MarkerError::Malformed)
        } else if rest.take(at) != MARKER_VERSION@ {
            Err(MarkerError::UnsupportedVersion)
        } else if !is_identity(rest.skip(at + 1)) {
            Err(MarkerError::InvalidIdentity)
        } else {
            Ok(rest.skip(at + 1))
        }
    }
}

/// The marker for a store identity.
pub open spec fn marker_text(identity: Seq<char>) -> Seq<char> {
    MARKER_PREFIX@ + MARKER_VERSION@ + seq![':'] + identity
}

/// Reads the store identity from a marker.
pub fn parse_marker(text: &str) -> (identity: Result<String, MarkerError>)
    ensures
        match identity {
            Ok(identity) => marker_identity(text@) == Ok::<Seq<char>, MarkerError>(identity@),
            Err(error) => marker_identity(text@) == Err::<Seq<char>, MarkerError>(error),
        },
{
    let rest = match strip_prefix(text, MARKER_PREFIX) {
        Some(rest) => rest,
        None => {
            return Err(MarkerError::UnknownMarker);
        },
    };
    let (version, identity) = match split_once(rest, ':') {
        Some(parts) => parts,
        None => {
            return Err(MarkerError::Malformed);
        },
    };
    if !equals(version, MARKER_VERSION) {
        return Err(MarkerError::UnsupportedVersion);
    }
    if !valid_identity(identity) {
        return Err(MarkerError::InvalidIdentity);
    }
    Ok(String::from_str(identity))
}

/// Writes the marker for a store identity.
pub fn render_marker(identity: &str) -> (text: String)
    ensures
        text@ == marker_text(identity@),
{
    proof {
        reveal_strlit(":");
        assert(":"@ =~= seq![':']);
    }
    let mut text = String::from_str(MARKER_PREFIX);
    text.append(MARKER_VERSION);
    text.append(":");
    text.append(identity);
    text
}

/// The version that markers carry is the format of the database.
pub proof fn law_marker_version_is_the_format()
    ensures
        MARKER_VERSION@ == decimal(FORMAT_VERSION as nat),
{
    reveal_strlit("1");
    assert(MARKER_VERSION@ =~= decimal(1));
}

/// A marker names the identity that it was written for.
pub proof fn law_marker_round_trip(identity: Seq<char>)
    requires
        is_identity(identity),
    ensures
        marker_identity(marker_text(identity)) == Ok::<Seq<char>, MarkerError>(identity),
{
    let text = marker_text(identity);
    let prefix = MARKER_PREFIX@;
    reveal_strlit("1");
    assert(text.take(prefix.len() as int) =~= prefix);
    let rest = text.skip(prefix.len() as int);
    assert(rest =~= MARKER_VERSION@ + seq![':'] + identity);
    assert(rest[0] == '1' && rest[1] == ':');
    assert(rest.drop_first()[0] == ':');
    reveal_with_fuel(first_mark, 3);
    assert(first_mark(rest, ':') == 1);
    assert(rest.take(1) =~= MARKER_VERSION@);
    assert(rest.skip(2) =~= identity);
}

/// Why the lifecycle lock holds no usable receipt.
#[derive(Clone, Copy, Debug, PartialEq, Eq, Structural)]
pub enum ReceiptError {
    NoReceipt,
    InvalidIdentity,
}

/// The store identity that a receipt names.
pub open spec fn receipt_identity(text: Seq<char>) -> Result<Seq<char>, ReceiptError> {
    if !starts_with(text, RECEIPT_PREFIX@) {
        Err(ReceiptError::NoReceipt)
    } else if !is_identity(text.skip(RECEIPT_PREFIX@.len() as int)) {
        Err(ReceiptError::InvalidIdentity)
    } else {
        Ok(text.skip(RECEIPT_PREFIX@.len() as int))
    }
}

/// The receipt for a store identity, which is also the origin of a store that started empty.
pub open spec fn receipt_text(identity: Seq<char>) -> Seq<char> {
    RECEIPT_PREFIX@ + identity
}

/// Reads the store identity from a receipt.
pub fn bootstrap_identity(receipt: &str) -> (identity: Result<String, ReceiptError>)
    ensures
        match identity {
            Ok(identity) => receipt_identity(receipt@) == Ok::<Seq<char>, ReceiptError>(identity@),
            Err(error) => receipt_identity(receipt@) == Err::<Seq<char>, ReceiptError>(error),
        },
{
    let identity = match strip_prefix(receipt, RECEIPT_PREFIX) {
        Some(identity) => identity,
        None => {
            return Err(ReceiptError::NoReceipt);
        },
    };
    if !valid_identity(identity) {
        return Err(ReceiptError::InvalidIdentity);
    }
    Ok(String::from_str(identity))
}

/// Writes the receipt for a store identity.
pub fn render_receipt(identity: &str) -> (text: String)
    ensures
        text@ == receipt_text(identity@),
{
    let mut text = String::from_str(RECEIPT_PREFIX);
    text.append(identity);
    text
}

/// A receipt names the identity that it was written for.
pub proof fn law_receipt_round_trip(identity: Seq<char>)
    requires
        is_identity(identity),
    ensures
        receipt_identity(receipt_text(identity)) == Ok::<Seq<char>, ReceiptError>(identity),
{
    let text = receipt_text(identity);
    assert(text.take(RECEIPT_PREFIX@.len() as int) =~= RECEIPT_PREFIX@);
    assert(text.skip(RECEIPT_PREFIX@.len() as int) =~= identity);
}

/// What has authority over the checkpoints.
pub enum Authority {
    Missing,
    Legacy,
    Marker(String),
}

/// The model of [`Authority`].
pub enum AuthorityModel {
    Missing,
    Legacy,
    Marker(Seq<char>),
}

impl DeepView for Authority {
    type V = AuthorityModel;

    open spec fn deep_view(&self) -> AuthorityModel {
        match self {
            Authority::Missing => AuthorityModel::Missing,
            Authority::Legacy => AuthorityModel::Legacy,
            Authority::Marker(identity) => AuthorityModel::Marker(identity@),
        }
    }
}

/// Why the authority file cannot be used.
#[derive(Clone, Copy, Debug, PartialEq, Eq, Structural)]
pub enum AuthorityError {
    InvalidJson,
    InvalidMarker(MarkerError),
    InvalidLegacy,
}

/// What an authority file stands for, given how its JSON reads and whether it describes a
/// state.
pub open spec fn authority_of(
    shape: Option<Option<Seq<char>>>,
    describes_state: bool,
) -> Result<AuthorityModel, AuthorityError> {
    match shape {
        None => Err(AuthorityError::InvalidJson),
        Some(Some(text)) => match marker_identity(text) {
            Ok(identity) => Ok(AuthorityModel::Marker(identity)),
            Err(error) => Err(AuthorityError::InvalidMarker(error)),
        },
        Some(None) => if describes_state {
            Ok(AuthorityModel::Legacy)
        } else {
            Err(AuthorityError::InvalidLegacy)
        },
    }
}

/// Decides what an authority file stands for from the shape of its JSON.
pub fn classify_authority(shape: Option<Option<String>>, describes_state: bool) -> (authority:
    Result<Authority, AuthorityError>)
    ensures
        match authority {
            Ok(authority) => authority_of(shape.deep_view(), describes_state) == Ok::<
                AuthorityModel,
                AuthorityError,
            >(authority.deep_view()),
            Err(error) => authority_of(shape.deep_view(), describes_state) == Err::<
                AuthorityModel,
                AuthorityError,
            >(error),
        },
{
    match shape {
        None => Err(AuthorityError::InvalidJson),
        Some(Some(text)) => match parse_marker(text.as_str()) {
            Ok(identity) => Ok(Authority::Marker(identity)),
            Err(error) => Err(AuthorityError::InvalidMarker(error)),
        },
        Some(None) => if describes_state {
            Ok(Authority::Legacy)
        } else {
            Err(AuthorityError::InvalidLegacy)
        },
    }
}

/// Decides what the authority file stands for, given its bytes if it exists and whether they
/// describe a state.
pub fn authority(raw: Option<&Vec<u8>>, describes_state: bool) -> (authority: Result<
    Authority,
    AuthorityError,
>)
    ensures
        match (raw, authority) {
            (None, Ok(authority)) => authority is Missing,
            (None, Err(_)) => false,
            (Some(raw), Ok(authority)) => authority_of(json_shape(raw@), describes_state) == Ok::<
                AuthorityModel,
                AuthorityError,
            >(authority.deep_view()),
            (Some(raw), Err(error)) => authority_of(json_shape(raw@), describes_state) == Err::<
                AuthorityModel,
                AuthorityError,
            >(error),
        },
{
    match raw {
        None => Ok(Authority::Missing),
        Some(raw) => classify_authority(read_json(raw.as_slice()), describes_state),
    }
}

/// The authority file that names a store identity.
pub fn marker_document(identity: &str) -> (document: Vec<u8>)
    ensures
        json_shape(document@) == Some(Some(marker_text(identity@))),
{
    let text = write_json_string(render_marker(identity).as_str());
    copy_bytes(text.as_str().as_bytes())
}

/// A published marker is read as the authority of the store that it names, whether or not a
/// state could be read from it.
pub proof fn law_published_marker_is_the_authority(
    document: Seq<u8>,
    identity: Seq<char>,
    describes_state: bool,
)
    requires
        is_identity(identity),
        json_shape(document) == Some(Some(marker_text(identity))),
    ensures
        authority_of(json_shape(document), describes_state) == Ok::<AuthorityModel, AuthorityError>(
            AuthorityModel::Marker(identity),
        ),
{
    law_marker_round_trip(identity);
}

/// Why no identity could be made.
#[derive(Clone, Copy, Debug, PartialEq, Eq, Structural)]
pub enum IdentityError {
    NoRandomness,
}

/// The identity made of these bytes.
pub fn identity_of(bytes: &[u8; 32]) -> (identity: String)
    ensures
        identity@ == hex_of(bytes@),
        is_identity(identity@),
{
    proof {
        lemma_hex_digits(bytes@);
    }
    hex(bytes.as_slice())
}

/// Makes a new store identity from the system's random source.
pub fn new_identity() -> (identity: Result<String, IdentityError>)
    ensures
        identity matches Ok(identity) ==> is_identity(identity@),
{
    drawn_identity(random_bytes())
}

/// The identity made of what the system's random source handed out.
pub fn drawn_identity(drawn: Result<[u8; 32], getrandom::Error>) -> (identity: Result<
    String,
    IdentityError,
>)
    ensures
        match (drawn, identity) {
            (Ok(bytes), Ok(identity)) => identity@ == hex_of(bytes@) && is_identity(identity@),
            (Err(_), Err(error)) => error == IdentityError::NoRandomness,
            _ => false,
        },
{
    match drawn {
        Ok(bytes) => Ok(identity_of(&bytes)),
        Err(_) => Err(IdentityError::NoRandomness),
    }
}

/// The name under which a document is archived.
pub open spec fn archive_name_of(raw: Seq<u8>) -> Seq<char> {
    "ingest.legacy-"@ + hex_of(sha256_of(raw)) + ".json"@
}

/// The name under which a document is archived.
pub fn archive_name(raw: &[u8]) -> (name: String)
    ensures
        name@ == archive_name_of(raw@),
        is_artifact(name@),
{
    let digest = digest_text(raw);
    let mut name = String::from_str("ingest.legacy-");
    name.append(digest.as_str());
    name.append(".json");
    proof {
        let prefix = "ingest.legacy-"@;
        let suffix = ".json"@;
        assert(name@.take(prefix.len() as int) =~= prefix);
        let rest = name@.skip(prefix.len() as int);
        assert(rest =~= digest@ + suffix);
        assert(rest.skip(rest.len() - suffix.len()) =~= suffix);
        assert(rest.take(name@.len() - prefix.len() - suffix.len()) =~= digest@);
    }
    name
}

/// The digest of a document in hexadecimal digits.
pub fn digest_text(raw: &[u8]) -> (text: String)
    ensures
        text@ == hex_of(sha256_of(raw@)),
        is_identity(text@),
        is_hex_digest(text@),
{
    let digest = sha256(raw);
    proof {
        lemma_hex_digits(digest@);
    }
    hex(digest.as_slice())
}

/// The origin of a store that was imported from a document.
pub open spec fn legacy_origin(raw: Seq<u8>) -> Seq<char> {
    "legacy:"@ + hex_of(sha256_of(raw))
}

/// What to do about the archived copy of a document.
#[derive(Clone, Copy, Debug, PartialEq, Eq, Structural)]
pub enum BackupStep {
    /// Write it, without replacing anything.
    Write,
    /// It is there already.
    Keep,
    /// Something else is there, which must not be replaced.
    Mismatch,
}

/// What to do about an archive with these contents, if there is one.
pub open spec fn backup_step(existing: Option<Seq<u8>>, raw: Seq<u8>) -> BackupStep {
    match existing {
        None => BackupStep::Write,
        Some(bytes) => if bytes == raw {
            BackupStep::Keep
        } else {
            BackupStep::Mismatch
        },
    }
}

/// Decides what to do about the archived copy of a document, given what stands under its name.
pub fn plan_backup(existing: Option<&Vec<u8>>, raw: &[u8]) -> (step: BackupStep)
    ensures
        step == backup_step(
            match existing {
                Some(bytes) => Some(bytes@),
                None => None,
            },
            raw@,
        ),
        step == (match existing {
            None => BackupStep::Write,
            Some(bytes) => if bytes@ == raw@ {
                BackupStep::Keep
            } else {
                BackupStep::Mismatch
            },
        }),
{
    match existing {
        None => BackupStep::Write,
        Some(bytes) => if equal_bytes(bytes.as_slice(), raw) {
            BackupStep::Keep
        } else {
            BackupStep::Mismatch
        },
    }
}

/// The settings that a writer reads back from its connection.
pub struct WriterPragmas {
    pub journal_mode: String,
    pub synchronous: i64,
    pub fullfsync: i64,
    pub checkpoint_fullfsync: i64,
    pub wal_autocheckpoint: i64,
    pub journal_size_limit: i64,
    pub no_checkpoint_on_close: bool,
}

/// `synchronous=FULL`
pub const SYNCHRONOUS: i64 = 2;

/// `fullfsync=ON` and `checkpoint_fullfsync=ON`
pub const FULL_SYNC: i64 = 1;

/// The number of pages after which the log is checkpointed.
pub const WAL_AUTOCHECKPOINT: i64 = 1_000;

/// The largest log that is kept after a checkpoint, in bytes.
pub const JOURNAL_SIZE_LIMIT: i64 = 16 * 1024 * 1024;

/// The first setting that is not as it should be.
#[derive(Clone, Copy, Debug, PartialEq, Eq, Structural)]
pub enum PragmaError {
    JournalMode,
    Synchronous,
    FullFsync,
    CheckpointFullFsync,
    WalAutocheckpoint,
    JournalSizeLimit,
    CheckpointOnClose,
}

/// `wal` in letters of either case.
pub open spec fn is_wal(mode: Seq<char>) -> bool {
    &&& mode.len() == 3
    &&& mode[0] == 'w' || mode[0] == 'W'
    &&& mode[1] == 'a' || mode[1] == 'A'
    &&& mode[2] == 'l' || mode[2] == 'L'
}

impl WriterPragmas {
    /// The first setting that makes a writer unsafe, if any.
    pub open spec fn fault(self) -> Option<PragmaError> {
        if !is_wal(self.journal_mode@) {
            Some(PragmaError::JournalMode)
        } else if self.synchronous != SYNCHRONOUS {
            Some(PragmaError::Synchronous)
        } else if self.fullfsync != FULL_SYNC {
            Some(PragmaError::FullFsync)
        } else if self.checkpoint_fullfsync != FULL_SYNC {
            Some(PragmaError::CheckpointFullFsync)
        } else if self.wal_autocheckpoint != WAL_AUTOCHECKPOINT {
            Some(PragmaError::WalAutocheckpoint)
        } else if self.journal_size_limit != JOURNAL_SIZE_LIMIT {
            Some(PragmaError::JournalSizeLimit)
        } else if !self.no_checkpoint_on_close {
            Some(PragmaError::CheckpointOnClose)
        } else {
            None
        }
    }

    /// Checks that the connection is as durable as it was asked to be.
    pub fn verify(&self) -> (result: Result<(), PragmaError>)
        ensures
            match result {
                Ok(_) => self.fault() is None,
                Err(error) => self.fault() == Some(error),
            },
    {
        let mode = crate::text::characters(self.journal_mode.as_str());
        if !(mode.len() == 3 && (mode[0] == 'w' || mode[0] == 'W') && (mode[1] == 'a' || mode[1]
            == 'A') && (mode[2] == 'l' || mode[2] == 'L')) {
            return Err(PragmaError::JournalMode);
        }
        if self.synchronous != SYNCHRONOUS {
            return Err(PragmaError::Synchronous);
        }
        if self.fullfsync != FULL_SYNC {
            return Err(PragmaError::FullFsync);
        }
        if self.checkpoint_fullfsync != FULL_SYNC {
            return Err(PragmaError::CheckpointFullFsync);
        }
        if self.wal_autocheckpoint != WAL_AUTOCHECKPOINT {
            return Err(PragmaError::WalAutocheckpoint);
        }
        if self.journal_size_limit != JOURNAL_SIZE_LIMIT {
            return Err(PragmaError::JournalSizeLimit);
        }
        if !self.no_checkpoint_on_close {
            return Err(PragmaError::CheckpointOnClose);
        }
        Ok(())
    }
}

/// Why the metadata of a database is refused.
#[derive(Clone, Copy, Debug, PartialEq, Eq, Structural)]
pub enum MetadataError {
    UnsupportedFormat,
    IdentityMismatch,
    NextId(NextIdError),
}

/// The document id of a database whose metadata belongs to the expected store.
pub open spec fn metadata_id(
    version: i64,
    identity: Seq<char>,
    next_id: Seq<char>,
    expected: Seq<char>,
) -> Result<u64, MetadataError> {
    if version != FORMAT_VERSION {
        Err(MetadataError::UnsupportedFormat)
    } else if identity != expected {
        Err(MetadataError::IdentityMismatch)
    } else {
        match stored_id(next_id) {
            Ok(id) => Ok(id),
            Err(error) => Err(MetadataError::NextId(error)),
        }
    }
}

/// Checks that the metadata of a database belongs to the expected store.
pub fn validate_metadata(version: i64, identity: &str, next_id: &str, expected: &str) -> (id:
    Result<u64, MetadataError>)
    ensures
        id == metadata_id(version, identity@, next_id@, expected@),
{
    if version != FORMAT_VERSION {
        return Err(MetadataError::UnsupportedFormat);
    }
    if !equals(identity, expected) {
        return Err(MetadataError::IdentityMismatch);
    }
    match parse_next_id(next_id) {
        Ok(id) => Ok(id),
        Err(error) => Err(MetadataError::NextId(error)),
    }
}

/// A database left by an interrupted initialization holds nothing but its own metadata.
pub fn bootstrap_is_empty(
    origin: &str,
    next_doc_id: &str,
    opencode_databases: &str,
    extras: &str,
    has_files: bool,
    identity: &str,
) -> (result: bool)
    ensures
        result == (origin@ == receipt_text(identity@) && next_doc_id@ == "1"@
            && opencode_databases@ == "{}"@ && extras@ == "{}"@ && !has_files),
{
    equals(origin, render_receipt(identity).as_str()) && equals(next_doc_id, "1") && equals(
        opencode_databases,
        "{}",
    ) && equals(extras, "{}") && !has_files
}

/// The metadata of a database without authority.
pub struct RemainsRow {
    pub origin: String,
    pub next_doc_id: String,
    pub opencode_databases: String,
    pub extras: String,
    pub has_files: bool,
}

/// What to do about a database without authority.
#[derive(Clone, Copy, Debug, PartialEq, Eq, Structural)]
pub enum RemainsStep {
    /// An interrupted initialization left it.
    Accept,
    /// Its metadata has to be validated and read.
    ReadMetadata,
    /// It holds something.
    Refuse,
}

/// The metadata is that of a store which an interrupted initialization left empty.
pub open spec fn is_empty_store(row: RemainsRow, identity: Seq<char>) -> bool {
    row.origin@ == receipt_text(identity) && row.next_doc_id@ == "1"@ && row.opencode_databases@
        == "{}"@ && row.extras@ == "{}"@ && !row.has_files
}

/// What to do about a database without authority, by its tables and its metadata.
pub open spec fn remains_decision(
    tables: i64,
    row: Option<RemainsRow>,
    identity: Seq<char>,
) -> RemainsStep {
    if tables == 0 {
        RemainsStep::Accept
    } else {
        match row {
            None => RemainsStep::ReadMetadata,
            Some(row) => if is_empty_store(row, identity) {
                RemainsStep::Accept
            } else {
                RemainsStep::Refuse
            },
        }
    }
}

/// What to do about a database without authority, whose lock names this identity. It is blank
/// until its tables are there, and then its metadata tells whether it holds anything.
pub fn remains_step(tables: i64, row: Option<&RemainsRow>, identity: &str) -> (step: RemainsStep)
    ensures
        step == remains_decision(
            tables,
            match row {
                Some(row) => Some(*row),
                None => None,
            },
            identity@,
        ),
        step == (if tables == 0 {
            RemainsStep::Accept
        } else {
            match row {
                None => RemainsStep::ReadMetadata,
                Some(row) => if is_empty_store(*row, identity@) {
                    RemainsStep::Accept
                } else {
                    RemainsStep::Refuse
                },
            }
        }),
{
    if tables == 0 {
        return RemainsStep::Accept;
    }
    match row {
        None => RemainsStep::ReadMetadata,
        Some(row) => if bootstrap_is_empty(
            row.origin.as_str(),
            row.next_doc_id.as_str(),
            row.opencode_databases.as_str(),
            row.extras.as_str(),
            row.has_files,
            identity,
        ) {
            RemainsStep::Accept
        } else {
            RemainsStep::Refuse
        },
    }
}

/// Whether the log was truncated completely.
pub fn truncate_completed(busy: i64, log: i64, checkpointed: i64) -> (result: bool)
    ensures
        result == (busy == 0 && log == 0 && checkpointed == 0),
{
    busy == 0 && log == 0 && checkpointed == 0
}

/// How an attempt to take the lifecycle lock went.
#[derive(Clone, Copy, Debug, PartialEq, Eq, Structural)]
pub enum LockAttempt {
    Acquired,
    WouldBlock,
    Failed,
}

/// What to do after an attempt to take the lifecycle lock.
#[derive(Clone, Copy, Debug, PartialEq, Eq, Structural)]
pub enum LockStep {
    Proceed,
    RetryAfterMillis(u64),
    Busy,
    Fail,
}

/// How long the lifecycle lock is waited for, in milliseconds.
pub const LOCK_PATIENCE_MILLIS: u64 = 500;

/// The pause between two attempts, in milliseconds.
pub const LOCK_PAUSE_MILLIS: u64 = 10;

/// What to do after an attempt to take the lifecycle lock.
pub open spec fn lock_decision(attempt: LockAttempt, elapsed_millis: u64) -> LockStep {
    match attempt {
        LockAttempt::Acquired => LockStep::Proceed,
        LockAttempt::WouldBlock => if elapsed_millis < LOCK_PATIENCE_MILLIS {
            LockStep::RetryAfterMillis(LOCK_PAUSE_MILLIS)
        } else {
            LockStep::Busy
        },
        LockAttempt::Failed => LockStep::Fail,
    }
}

/// Decides what to do after an attempt to take the lifecycle lock.
pub fn lock_step(attempt: LockAttempt, elapsed_millis: u64) -> (step: LockStep)
    ensures
        step == lock_decision(attempt, elapsed_millis),
        step == (match attempt {
            LockAttempt::Acquired => LockStep::Proceed,
            LockAttempt::WouldBlock => if elapsed_millis < LOCK_PATIENCE_MILLIS {
                LockStep::RetryAfterMillis(LOCK_PAUSE_MILLIS)
            } else {
                LockStep::Busy
            },
            LockAttempt::Failed => LockStep::Fail,
        }),
{
    match attempt {
        LockAttempt::Acquired => LockStep::Proceed,
        LockAttempt::WouldBlock => if elapsed_millis < LOCK_PATIENCE_MILLIS {
            LockStep::RetryAfterMillis(LOCK_PAUSE_MILLIS)
        } else {
            LockStep::Busy
        },
        LockAttempt::Failed => LockStep::Fail,
    }
}

/// Why a plain state document may not be written.
#[derive(Clone, Copy, Debug, PartialEq, Eq, Structural)]
pub enum SaveError {
    MarkerPresent,
    InvalidAuthority,
    MissingAuthority,
}

/// Why a plain state document may not replace what is there.
pub open spec fn save_refusal(
    shape: Option<Option<Option<Seq<char>>>>,
    database_exists: bool,
    describes_state: bool,
) -> Option<SaveError> {
    match shape {
        Some(Some(Some(_))) => Some(SaveError::MarkerPresent),
        Some(_) => if database_exists && !describes_state {
            Some(SaveError::InvalidAuthority)
        } else {
            None
        },
        None => if database_exists {
            Some(SaveError::MissingAuthority)
        } else {
            None
        },
    }
}

/// Decides whether a plain state document may replace a file whose JSON has this shape.
pub fn check_save_over(
    shape: Option<Option<Option<String>>>,
    database_exists: bool,
    describes_state: bool,
) -> (result: Result<(), SaveError>)
    ensures
        match result {
            Ok(_) => save_refusal(shape.deep_view(), database_exists, describes_state) is None,
            Err(error) => save_refusal(shape.deep_view(), database_exists, describes_state) == Some(
                error,
            ),
        },
{
    match shape {
        Some(Some(Some(_))) => Err(SaveError::MarkerPresent),
        Some(_) => if database_exists && !describes_state {
            Err(SaveError::InvalidAuthority)
        } else {
            Ok(())
        },
        None => if database_exists {
            Err(SaveError::MissingAuthority)
        } else {
            Ok(())
        },
    }
}

/// Decides whether a plain state document may be written, given the bytes of the authority
/// file if it could be read.
pub fn check_legacy_save(
    raw: Option<&Vec<u8>>,
    database_exists: bool,
    describes_state: bool,
) -> (result: Result<(), SaveError>)
    ensures
        ({
            let refusal = save_refusal(
                match raw {
                    Some(raw) => Some(json_shape(raw@)),
                    None => None,
                },
                database_exists,
                describes_state,
            );
            match result {
                Ok(_) => refusal is None,
                Err(error) => refusal == Some(error),
            }
        }),
{
    let shape = match raw {
        Some(raw) => Some(read_json(raw.as_slice())),
        None => None,
    };
    check_save_over(shape, database_exists, describes_state)
}

/// A plain state document never replaces a marker.
pub proof fn law_markers_are_never_overwritten(
    document: Seq<u8>,
    identity: Seq<char>,
    database_exists: bool,
    describes_state: bool,
)
    requires
        json_shape(document) == Some(Some(marker_text(identity))),
    ensures
        save_refusal(Some(json_shape(document)), database_exists, describes_state) == Some(
            SaveError::MarkerPresent,
        ),
{
}

/// The files that a reset removes beside the authority file. The lock and the archived
/// documents stay.
pub fn reset_targets() -> (names: Vec<&'static str>)
    ensures
        names@.len() == 4,
        names@[0]@ == DATABASE@,
        names@[1]@ == "checkpoints.sqlite-wal"@,
        names@[2]@ == "checkpoints.sqlite-shm"@,
        names@[3]@ == "checkpoints.sqlite-journal"@,
{
    let mut names: Vec<&'static str> = Vec::new();
    names.push(DATABASE);
    names.push("checkpoints.sqlite-wal");
    names.push("checkpoints.sqlite-shm");
    names.push("checkpoints.sqlite-journal");
    names
}

/// An archive is never overwritten: it is written where there is none, kept where it holds just
/// what is to be archived, and anything else is refused.
pub proof fn law_archives_are_never_overwritten(existing: Option<Seq<u8>>, raw: Seq<u8>)
    ensures
        backup_step(existing, raw) == BackupStep::Write <==> existing is None,
        backup_step(existing, raw) == BackupStep::Keep <==> existing == Some(raw),
        backup_step(existing, raw) == BackupStep::Mismatch <==> existing is Some && existing
            != Some(raw),
{
}

/// A database without authority is accepted only if it has no tables, or if it holds nothing but
/// what an interrupted initialization with the identity of the lock wrote.
pub proof fn law_only_empty_remains_are_accepted(
    tables: i64,
    row: Option<RemainsRow>,
    identity: Seq<char>,
)
    ensures
        ({
            let step = remains_decision(tables, row, identity);
            &&& tables == 0 ==> step == RemainsStep::Accept
            &&& tables != 0 && row is None ==> step == RemainsStep::ReadMetadata
            &&& tables != 0 && row is Some ==> step != RemainsStep::ReadMetadata && (step
                == RemainsStep::Accept <==> {
                let found = row.unwrap();
                &&& found.origin@ == "bootstrap:"@ + identity
                &&& found.next_doc_id@ == "1"@
                &&& found.opencode_databases@ == "{}"@
                &&& found.extras@ == "{}"@
                &&& !found.has_files
            })
        }),
{
}

/// A lock that is held is tried again, every ten milliseconds, for half a second and no longer.
/// Any other failure is final.
pub proof fn law_waiting_for_the_lock_ends(attempt: LockAttempt, elapsed: u64)
    ensures
        lock_decision(attempt, elapsed) == LockStep::Proceed <==> attempt == LockAttempt::Acquired,
        lock_decision(attempt, elapsed) == LockStep::Fail <==> attempt == LockAttempt::Failed,
        attempt == LockAttempt::WouldBlock && elapsed < 500 ==> lock_decision(attempt, elapsed)
            == LockStep::RetryAfterMillis(10),
        attempt == LockAttempt::WouldBlock && elapsed >= 500 ==> lock_decision(attempt, elapsed)
            == LockStep::Busy,
{
}

/// The identity of a marker is what stands behind the prefix, the version and a colon. Nothing
/// else is a marker, and each reason to refuse one is told apart.
pub proof fn law_markers_are_read_strictly(
    text: Seq<char>,
    version: Seq<char>,
    identity: Seq<char>,
)
    ensures
        marker_identity(text) matches Ok(found) ==> is_identity(found) && text
            == "memex-checkpoints:"@ + "1"@ + seq![':'] + found,
        text == "memex-checkpoints:"@ + version + seq![':'] + identity && !version.contains(':')
            ==> {
            &&& version != "1"@ ==> marker_identity(text) == Err::<Seq<char>, MarkerError>(
                MarkerError::UnsupportedVersion,
            )
            &&& version == "1"@ && !is_identity(identity) ==> marker_identity(text) == Err::<
                Seq<char>,
                MarkerError,
            >(MarkerError::InvalidIdentity)
            &&& version == "1"@ && is_identity(identity) ==> marker_identity(text) == Ok::<
                Seq<char>,
                MarkerError,
            >(identity)
        },
        text == "memex-checkpoints:"@ + version && !version.contains(':') ==> marker_identity(text)
            == Err::<Seq<char>, MarkerError>(MarkerError::Malformed),
        (forall|rest: Seq<char>| text != #[trigger] ("memex-checkpoints:"@ + rest))
            ==> marker_identity(text) == Err::<Seq<char>, MarkerError>(MarkerError::UnknownMarker),
{
    let prefix = "memex-checkpoints:"@;
    let rest = text.skip(prefix.len() as int);
    law_prefixes_and_suffixes(text, prefix, rest);
    law_texts_are_split_at_the_first_mark(rest, ':');
    let at = first_mark(rest, ':') as int;
    if starts_with(text, prefix) {
        assert(text == prefix + rest);
    }
    if let Ok(found) = marker_identity(text) {
        assert(rest =~= rest.take(at) + seq![':'] + found);
        assert(text =~= prefix + "1"@ + seq![':'] + found);
    }
    if text == prefix + version + seq![':'] + identity && !version.contains(':') {
        let tail = version + seq![':'] + identity;
        assert(text =~= prefix + tail);
        law_prefixes_and_suffixes(text, prefix, tail);
        assert(rest == tail);
        assert(rest[version.len() as int] == ':');
        assert(at == version.len()) by {
            if at < version.len() {
                assert(version[at] == ':');
            }
        }
        assert(rest.take(at) =~= version);
        assert(rest.skip(at + 1) =~= identity);
    }
    if text == prefix + version && !version.contains(':') {
        law_prefixes_and_suffixes(text, prefix, version);
        assert(rest == version);
        if at < rest.len() {
            assert(version[at] == ':');
        }
    }
}

/// A receipt is its prefix and an identity, and nothing else is one.
pub proof fn law_receipts_are_read_strictly(text: Seq<char>, identity: Seq<char>)
    ensures
        receipt_identity(text) matches Ok(found) ==> is_identity(found) && text == "bootstrap:"@
            + found,
        text == "bootstrap:"@ + identity && is_identity(identity) ==> receipt_identity(text) == Ok::<
            Seq<char>,
            ReceiptError,
        >(identity),
        text == "bootstrap:"@ + identity && !is_identity(identity) ==> receipt_identity(text)
            == Err::<Seq<char>, ReceiptError>(ReceiptError::InvalidIdentity),
        (forall|rest: Seq<char>| text != #[trigger] ("bootstrap:"@ + rest)) ==> receipt_identity(
            text,
        ) == Err::<Seq<char>, ReceiptError>(ReceiptError::NoReceipt),
{
    let prefix = "bootstrap:"@;
    law_prefixes_and_suffixes(text, prefix, identity);
    if starts_with(text, prefix) {
        assert(text == prefix + text.skip(prefix.len() as int));
    }
}

/// What has authority: a JSON string is a marker or nothing, any other JSON is a document
/// exactly if it describes a state, and what is no JSON has none.
pub proof fn law_authority_is_told_apart(
    shape: Option<Option<Seq<char>>>,
    describes_state: bool,
)
    ensures
        shape is None ==> authority_of(shape, describes_state) == Err::<
            AuthorityModel,
            AuthorityError,
        >(AuthorityError::InvalidJson),
        shape == Some(None::<Seq<char>>) && describes_state ==> authority_of(shape, describes_state)
            == Ok::<AuthorityModel, AuthorityError>(AuthorityModel::Legacy),
        shape == Some(None::<Seq<char>>) && !describes_state ==> authority_of(
            shape,
            describes_state,
        ) == Err::<AuthorityModel, AuthorityError>(AuthorityError::InvalidLegacy),
        shape matches Some(Some(text)) ==> match marker_identity(text) {
            Ok(identity) => authority_of(shape, describes_state) == Ok::<
                AuthorityModel,
                AuthorityError,
            >(AuthorityModel::Marker(identity)),
            Err(error) => authority_of(shape, describes_state) == Err::<
                AuthorityModel,
                AuthorityError,
            >(AuthorityError::InvalidMarker(error)),
        },
{
}

/// A writer is set up exactly if the log is ahead of the database, everything is synchronised
/// fully, the log is moved in after a thousand pages and cut to sixteen megabytes, and closing
/// does not move it in.
pub proof fn law_writers_are_durable(pragmas: WriterPragmas)
    ensures
        pragmas.fault() is None <==> pragmas.journal_mode@.len() == 3 && (pragmas.journal_mode@[0]
            == 'w' || pragmas.journal_mode@[0] == 'W') && (pragmas.journal_mode@[1] == 'a'
            || pragmas.journal_mode@[1] == 'A') && (pragmas.journal_mode@[2] == 'l'
            || pragmas.journal_mode@[2] == 'L') && pragmas.synchronous == 2 && pragmas.fullfsync
            == 1 && pragmas.checkpoint_fullfsync == 1 && pragmas.wal_autocheckpoint == 1_000
            && pragmas.journal_size_limit == 16_777_216 && pragmas.no_checkpoint_on_close,
        pragmas.fault() == Some(PragmaError::Synchronous) ==> pragmas.synchronous != 2,
        pragmas.fault() == Some(PragmaError::FullFsync) ==> pragmas.fullfsync != 1,
        pragmas.fault() == Some(PragmaError::CheckpointFullFsync) ==> pragmas.checkpoint_fullfsync
            != 1,
        pragmas.fault() == Some(PragmaError::WalAutocheckpoint) ==> pragmas.wal_autocheckpoint
            != 1_000,
        pragmas.fault() == Some(PragmaError::JournalSizeLimit) ==> pragmas.journal_size_limit
            != 16_777_216,
        pragmas.fault() == Some(PragmaError::CheckpointOnClose)
            ==> !pragmas.no_checkpoint_on_close,
{
}

/// The metadata of a database is accepted exactly if its format is the first, its identity is
/// the expected one, and its next id can be read.
pub proof fn law_only_the_named_database_is_accepted(
    version: i64,
    identity: Seq<char>,
    next_id: Seq<char>,
    expected: Seq<char>,
)
    ensures
        ({
            let found = metadata_id(version, identity, next_id, expected);
            &&& found is Ok <==> version == 1 && identity == expected && stored_id(next_id) is Ok
            &&& found is Ok ==> stored_id(next_id) == Ok::<u64, crate::checkpoint::NextIdError>(
                found->Ok_0,
            )
            &&& version != 1 ==> found == Err::<u64, MetadataError>(
                MetadataError::UnsupportedFormat,
            )
            &&& version == 1 && identity != expected ==> found == Err::<u64, MetadataError>(
                MetadataError::IdentityMismatch,
            )
        }),
{
}

/// A state document is written over what is there unless that is a marker, or unless a database
/// is there and what is there is no state document.
pub proof fn law_documents_replace_documents_only(
    shape: Option<Option<Option<Seq<char>>>>,
    database_exists: bool,
    describes_state: bool,
)
    ensures
        ({
            let refusal = save_refusal(shape, database_exists, describes_state);
            let marker = shape is Some && shape.unwrap() is Some && shape.unwrap().unwrap() is Some;
            &&& refusal == Some(SaveError::MarkerPresent) <==> marker
            &&& refusal == Some(SaveError::InvalidAuthority) <==> shape is Some && !marker
                && database_exists && !describes_state
            &&& refusal == Some(SaveError::MissingAuthority) <==> shape is None && database_exists
            &&& !database_exists && !marker ==> refusal is None
        }),
{
}

/// An archive is named after the digest of its contents, and the origin of a migrated database
/// tells the same digest.
pub proof fn law_archives_are_named_after_their_contents(raw: Seq<u8>)
    ensures
        archive_name_of(raw) == "ingest.legacy-"@ + hex_of(sha256_of(raw)) + ".json"@,
        legacy_origin(raw) == "legacy:"@ + hex_of(sha256_of(raw)),
{
}

} // verus!
