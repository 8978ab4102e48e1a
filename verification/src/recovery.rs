//! What a reader finds in a state directory, and what is left of a migration that stops.

use vstd::prelude::*;
use crate::checkpoint::{
    export_document, exported, imported, law_import_export_round_trip, DocumentModel, StateDocument,
    StoreContents, StoreModel, FORMAT_VERSION,
};
use crate::codec::{known_fields, Entity};
use crate::lifecycle::{
    archive_name_of, bootstrap_identity, law_receipt_round_trip, metadata_id, receipt_identity,
    receipt_text, render_receipt, validate_metadata, MetadataError, ReceiptError,
};
use crate::migration::{bootstrap_steps, legacy_steps, StepModel};
use crate::model::Modeled;
use crate::sorted::SortedMap;
use crate::state::FIRST_DOC_ID;
use crate::text::{decimal, equals, is_identity};

verus! {

/// The authority file, read.
pub enum AuthorityImage {
    Missing,
    Document(StateDocument),
    Marker(String),
}

/// The model of [`AuthorityImage`].
pub enum AuthorityFile {
    Missing,
    Document(DocumentModel),
    Marker(Seq<char>),
}

impl DeepView for AuthorityImage {
    type V = AuthorityFile;

    open spec fn deep_view(&self) -> AuthorityFile {
        match self {
            AuthorityImage::Missing => AuthorityFile::Missing,
            AuthorityImage::Document(document) => AuthorityFile::Document(document.deep_view()),
            AuthorityImage::Marker(identity) => AuthorityFile::Marker(identity@),
        }
    }
}

/// The checkpoint database, read. It is blank until its tables are there.
pub enum DatabaseImage {
    Blank,
    Filled { version: i64, identity: String, origin: String, contents: StoreContents },
}

/// The model of [`DatabaseImage`].
pub enum DatabaseFile {
    Blank,
    Filled { version: i64, identity: Seq<char>, origin: Seq<char>, contents: StoreModel },
}

impl DeepView for DatabaseImage {
    type V = DatabaseFile;

    open spec fn deep_view(&self) -> DatabaseFile {
        match self {
            DatabaseImage::Blank => DatabaseFile::Blank,
            DatabaseImage::Filled { version, identity, origin, contents } => DatabaseFile::Filled {
                version: *version,
                identity: identity@,
                origin: origin@,
                contents: contents.deep_view(),
            },
        }
    }
}

/// Why a state directory cannot be read.
#[derive(Clone, Copy, Debug, PartialEq, Eq, Structural)]
pub enum ReadError {
    /// There is no lifecycle lock.
    NoLock,
    /// The marker names a database that is not there, or that holds nothing yet.
    NoDatabase,
    /// The database is not the one that is named, or not one that is understood.
    Metadata(MetadataError),
    /// A database without authority has no receipt.
    Receipt(ReceiptError),
    /// A database without authority holds something.
    Populated,
}

/// The document of an empty state.
pub open spec fn empty_document() -> DocumentModel {
    DocumentModel {
        next_doc_id: FIRST_DOC_ID,
        files: Map::empty(),
        opencode_databases: Some(Map::empty()),
        extras: Map::empty(),
    }
}

/// What a reader finds where the marker has authority.
pub open spec fn readable_database(
    identity: Seq<char>,
    database: Option<DatabaseFile>,
) -> Result<DocumentModel, ReadError> {
    match database {
        Some(DatabaseFile::Filled { version, identity: found, origin: _, contents }) => match metadata_id(
            version,
            found,
            contents.next_doc_id,
            identity,
        ) {
            Err(error) => Err(ReadError::Metadata(error)),
            Ok(id) => Ok(
                DocumentModel {
                    next_doc_id: id,
                    files: contents.files,
                    opencode_databases: Some(contents.opencode_databases),
                    extras: contents.extras,
                },
            ),
        },
        _ => Err(ReadError::NoDatabase),
    }
}

/// What a reader finds where nothing has authority: an empty state, as long as a database that
/// is there was left by an interrupted initialization. The lock then holds its receipt, and it
/// holds nothing.
pub open spec fn readable_remains(
    database: DatabaseFile,
    receipt: Seq<char>,
) -> Result<DocumentModel, ReadError> {
    match receipt_identity(receipt) {
        Err(error) => Err(ReadError::Receipt(error)),
        Ok(identity) => match database {
            DatabaseFile::Blank => Ok(empty_document()),
            DatabaseFile::Filled { version, identity: found, origin, contents } => match metadata_id(
                version,
                found,
                contents.next_doc_id,
                identity,
            ) {
                Err(error) => Err(ReadError::Metadata(error)),
                Ok(_) => if origin == receipt_text(identity) && contents == imported(
                    empty_document(),
                ) {
                    Ok(empty_document())
                } else {
                    Err(ReadError::Populated)
                },
            },
        },
    }
}

/// What a reader finds: the document that has authority, or the contents of the database that
/// the marker names, or nothing yet.
pub open spec fn readable(
    authority: AuthorityFile,
    database: Option<DatabaseFile>,
    lock: Option<Seq<char>>,
) -> Result<DocumentModel, ReadError> {
    match authority {
        AuthorityFile::Document(document) => Ok(document),
        AuthorityFile::Marker(identity) => match lock {
            None => Err(ReadError::NoLock),
            Some(_) => readable_database(identity, database),
        },
        AuthorityFile::Missing => match database {
            None => Ok(empty_document()),
            Some(database) => match lock {
                None => Err(ReadError::NoLock),
                Some(receipt) => readable_remains(database, receipt),
            },
        },
    }
}

/// An empty state as a document.
pub fn empty_state_document() -> (document: StateDocument)
    ensures
        document.deep_view() == empty_document(),
{
    StateDocument {
        next_doc_id: FIRST_DOC_ID,
        files: SortedMap::new(),
        opencode_databases: Some(SortedMap::new()),
        extras: SortedMap::new(),
    }
}

fn read_database(identity: &str, database: Option<&DatabaseImage>) -> (found: Result<
    StateDocument,
    ReadError,
>)
    ensures
        match found {
            Ok(document) => readable_database(identity@, database.deep_view()) == Ok::<
                DocumentModel,
                ReadError,
            >(document.deep_view()),
            Err(error) => readable_database(identity@, database.deep_view()) == Err::<
                DocumentModel,
                ReadError,
            >(error),
        },
{
    match database {
        Some(DatabaseImage::Filled { version, identity: found, origin: _, contents }) => {
            match validate_metadata(
                *version,
                found.as_str(),
                contents.next_doc_id.as_str(),
                identity,
            ) {
                Err(error) => Err(ReadError::Metadata(error)),
                Ok(_) => match export_document(contents) {
                    Ok(document) => Ok(document),
                    Err(error) => Err(ReadError::Metadata(MetadataError::NextId(error))),
                },
            }
        },
        _ => Err(ReadError::NoDatabase),
    }
}

/// Whether a store holds nothing.
fn holds_nothing(contents: &StoreContents) -> (result: bool)
    ensures
        result == (contents.deep_view() == imported(empty_document())),
{
    let files = contents.files.len();
    let databases = contents.opencode_databases.len();
    let extras = contents.extras.len();
    let ghost store = contents.deep_view();
    let ghost empty = imported(empty_document());
    proof {
        reveal_strlit("1");
        assert(decimal(1) =~= "1"@);
        assert(empty.extras =~= Map::empty());
        if files == 0 {
            assert(store.files =~= Map::empty());
        }
        if databases == 0 {
            assert(store.opencode_databases =~= Map::empty());
        }
        if extras == 0 {
            assert(store.extras =~= Map::empty());
        }
    }
    equals(contents.next_doc_id.as_str(), "1") && files == 0 && databases == 0 && extras == 0
}

fn read_remains(database: &DatabaseImage, receipt: &str) -> (found: Result<
    StateDocument,
    ReadError,
>)
    ensures
        match found {
            Ok(document) => readable_remains(database.deep_view(), receipt@) == Ok::<
                DocumentModel,
                ReadError,
            >(document.deep_view()),
            Err(error) => readable_remains(database.deep_view(), receipt@) == Err::<
                DocumentModel,
                ReadError,
            >(error),
        },
{
    let identity = match bootstrap_identity(receipt) {
        Ok(identity) => identity,
        Err(error) => {
            return Err(ReadError::Receipt(error));
        },
    };
    match database {
        DatabaseImage::Blank => Ok(empty_state_document()),
        DatabaseImage::Filled { version, identity: found, origin, contents } => {
            if let Err(error) = validate_metadata(
                *version,
                found.as_str(),
                contents.next_doc_id.as_str(),
                identity.as_str(),
            ) {
                return Err(ReadError::Metadata(error));
            }
            if equals(origin.as_str(), render_receipt(identity.as_str()).as_str())
                && holds_nothing(contents) {
                Ok(empty_state_document())
            } else {
                Err(ReadError::Populated)
            }
        },
    }
}

/// Reads a state directory: the authority file, the database if there is one, and the contents
/// of the lifecycle lock if there is one.
pub fn read_directory(
    authority: &AuthorityImage,
    database: Option<&DatabaseImage>,
    lock: Option<&String>,
) -> (found: Result<StateDocument, ReadError>)
    ensures
        match found {
            Ok(document) => readable(
                authority.deep_view(),
                database.deep_view(),
                lock.deep_view(),
            ) == Ok::<DocumentModel, ReadError>(document.deep_view()),
            Err(error) => readable(
                authority.deep_view(),
                database.deep_view(),
                lock.deep_view(),
            ) == Err::<DocumentModel, ReadError>(error),
        },
{
    match authority {
        AuthorityImage::Document(document) => Ok(document.duplicate()),
        AuthorityImage::Marker(identity) => match lock {
            None => Err(ReadError::NoLock),
            Some(_) => read_database(identity.as_str(), database),
        },
        AuthorityImage::Missing => match database {
            None => Ok(empty_state_document()),
            Some(database) => match lock {
                None => Err(ReadError::NoLock),
                Some(receipt) => read_remains(database, receipt.as_str()),
            },
        },
    }
}

/// A marker has no authority without its lock and its database: where either is missing, or the
/// database has another identity, another format or an id that cannot be read, nothing is read.
/// The same holds of a database that holds something but has no authority.
pub proof fn law_broken_directories_fail_closed(
    identity: Seq<char>,
    database: Option<DatabaseFile>,
    lock: Option<Seq<char>>,
)
    ensures
        readable(AuthorityFile::Marker(identity), database, None) is Err,
        readable(AuthorityFile::Marker(identity), None, lock) is Err,
        readable(AuthorityFile::Marker(identity), Some(DatabaseFile::Blank), lock) is Err,
        database matches Some(DatabaseFile::Filled { version, identity: found, contents, .. })
            && (version != FORMAT_VERSION || found != identity || exported(contents) is Err)
            ==> readable(AuthorityFile::Marker(identity), database, lock) is Err,
        database matches Some(DatabaseFile::Filled { contents, .. }) && contents != imported(
            empty_document(),
        ) ==> readable(AuthorityFile::Missing, database, lock) is Err,
{
}

/// The state directory. `archives` holds the bytes of each archived document by its name;
/// `truncated` and `durable` tell what happened to the database since it was last imported
/// into.
#[verifier::ext_equal]
pub struct Disk {
    pub authority: AuthorityFile,
    pub database: Option<DatabaseFile>,
    pub lock: Option<Seq<char>>,
    pub archives: Map<Seq<char>, Seq<u8>>,
    pub truncated: bool,
    pub durable: bool,
}

impl Disk {
    /// What a reader finds.
    pub open spec fn readable(self) -> Result<DocumentModel, ReadError> {
        readable(self.authority, self.database, self.lock)
    }
}

/// The document with an empty list of databases where it has none.
pub open spec fn completed(document: DocumentModel) -> DocumentModel {
    DocumentModel {
        opencode_databases: Some(
            match document.opencode_databases {
                Some(databases) => databases,
                None => Map::empty(),
            },
        ),
        ..document
    }
}

/// A document with these bytes can be archived: nothing else stands under its name. Otherwise
/// a migration stops at that step.
pub open spec fn can_archive(disk: Disk, raw: Seq<u8>) -> bool {
    disk.archives.contains_key(archive_name_of(raw)) ==> disk.archives[archive_name_of(raw)] == raw
}

/// The directory after one step of the migration that imports `document`, whose bytes are
/// `raw`. An archive that is there already stays as it is.
pub open spec fn performed(
    disk: Disk,
    step: StepModel,
    raw: Seq<u8>,
    identity: Seq<char>,
    origin: Seq<char>,
    document: DocumentModel,
) -> Disk {
    match step {
        StepModel::Archive(name) => if disk.archives.contains_key(name) {
            disk
        } else {
            Disk { archives: disk.archives.insert(name, raw), ..disk }
        },
        StepModel::WriteReceipt(text) => Disk { lock: Some(text), ..disk },
        StepModel::Import => Disk {
            database: Some(
                DatabaseFile::Filled {
                    version: FORMAT_VERSION,
                    identity,
                    origin,
                    contents: imported(document),
                },
            ),
            truncated: false,
            durable: false,
            ..disk
        },
        StepModel::Truncate => Disk { truncated: true, ..disk },
        StepModel::SyncDatabase => Disk { durable: disk.truncated, ..disk },
        StepModel::PublishMarker => Disk { authority: AuthorityFile::Marker(identity), ..disk },
    }
}

/// The directory after the first `n` steps.
pub open spec fn performed_upto(
    disk: Disk,
    steps: Seq<StepModel>,
    raw: Seq<u8>,
    identity: Seq<char>,
    origin: Seq<char>,
    document: DocumentModel,
    n: int,
) -> Disk
    decreases n,
{
    if n <= 0 {
        disk
    } else {
        performed(
            performed_upto(disk, steps, raw, identity, origin, document, n - 1),
            steps[n - 1],
            raw,
            identity,
            origin,
            document,
        )
    }
}

/// The directory with a database file created where there was none, as an import that stops
/// before its end leaves it.
pub open spec fn import_begun(disk: Disk) -> Disk {
    match disk.database {
        None => Disk { database: Some(DatabaseFile::Blank), ..disk },
        Some(_) => disk,
    }
}

/// A migration of a document can stop after any number of steps, or in the middle of its
/// import: what a reader finds is that document, before, meanwhile and after. A stale database
/// from an earlier attempt plays no part.
pub proof fn law_migration_never_loses_the_document(
    disk: Disk,
    document: DocumentModel,
    raw: Seq<u8>,
    identity: Seq<char>,
    origin: Seq<char>,
    n: int,
)
    requires
        disk.authority == AuthorityFile::Document(document),
        disk.lock is Some,
        document.extras.dom().disjoint(known_fields(Entity::State)),
        0 <= n <= legacy_steps(raw).len(),
    ensures
        ({
            let after = performed_upto(disk, legacy_steps(raw), raw, identity, origin, document, n);
            &&& after.readable() matches Ok(found) && completed(found) == completed(document)
            &&& import_begun(after).readable() matches Ok(found) && completed(found) == completed(
                document,
            )
        }),
{
    let steps = legacy_steps(raw);
    law_import_export_round_trip(document);
    reveal_with_fuel(performed_upto, 6);
    assert(steps.len() == 5);
    assert(steps[0] == StepModel::Archive(archive_name_of(raw)));
    assert(steps[1] == StepModel::Import);
    assert(steps[2] == StepModel::Truncate);
    assert(steps[3] == StepModel::SyncDatabase);
    assert(steps[4] == StepModel::PublishMarker);
}

/// An initialization can stop after any number of steps, or in the middle of its import: a
/// reader finds the empty state, and a database that was left behind is recognized by its
/// receipt.
pub proof fn law_initialization_can_be_resumed(
    disk: Disk,
    identity: Seq<char>,
    resumed: bool,
    n: int,
)
    requires
        disk.authority == AuthorityFile::Missing,
        disk.lock is Some,
        is_identity(identity),
        !resumed ==> disk.database is None,
        resumed ==> disk.database is Some && disk.readable() is Ok && receipt_identity(
            disk.lock.unwrap(),
        ) == Ok::<Seq<char>, ReceiptError>(identity),
        0 <= n <= bootstrap_steps(identity, resumed).len(),
    ensures
        ({
            let steps = bootstrap_steps(identity, resumed);
            let after = performed_upto(
                disk,
                steps,
                Seq::empty(),
                identity,
                receipt_text(identity),
                empty_document(),
                n,
            );
            &&& after.readable() == Ok::<DocumentModel, ReadError>(empty_document())
            &&& n > 0 ==> import_begun(after).readable() == Ok::<DocumentModel, ReadError>(
                empty_document(),
            )
        }),
{
    let steps = bootstrap_steps(identity, resumed);
    law_import_export_round_trip(empty_document());
    law_receipt_round_trip(identity);
    reveal_with_fuel(performed_upto, 6);
    if resumed {
        assert(steps.len() == 4);
        assert(steps[0] == StepModel::Import);
        assert(steps[1] == StepModel::Truncate);
        assert(steps[2] == StepModel::SyncDatabase);
        assert(steps[3] == StepModel::PublishMarker);
    } else {
        assert(steps.len() == 5);
        assert(steps[0] == StepModel::WriteReceipt(receipt_text(identity)));
        assert(steps[1] == StepModel::Import);
        assert(steps[2] == StepModel::Truncate);
        assert(steps[3] == StepModel::SyncDatabase);
        assert(steps[4] == StepModel::PublishMarker);
    }
}

/// The marker is published only once the document is archived and the database holds the
/// imported state, truncated and durable, under the identity that the marker names.
pub proof fn law_marker_comes_last(
    disk: Disk,
    document: DocumentModel,
    raw: Seq<u8>,
    identity: Seq<char>,
    origin: Seq<char>,
    n: int,
)
    requires
        disk.authority == AuthorityFile::Document(document),
        can_archive(disk, raw),
        0 <= n <= legacy_steps(raw).len(),
    ensures
        ({
            let after = performed_upto(disk, legacy_steps(raw), raw, identity, origin, document, n);
            after.authority is Marker ==> {
                &&& after.authority == AuthorityFile::Marker(identity)
                &&& after.archives.contains_key(archive_name_of(raw))
                &&& after.archives[archive_name_of(raw)] == raw
                &&& after.database == Some(
                    DatabaseFile::Filled {
                        version: FORMAT_VERSION,
                        identity,
                        origin,
                        contents: imported(document),
                    },
                )
                &&& after.truncated
                &&& after.durable
            }
        }),
{
    let steps = legacy_steps(raw);
    reveal_with_fuel(performed_upto, 6);
    assert(steps.len() == 5);
    assert(steps[0] == StepModel::Archive(archive_name_of(raw)));
    assert(steps[1] == StepModel::Import);
    assert(steps[2] == StepModel::Truncate);
    assert(steps[3] == StepModel::SyncDatabase);
    assert(steps[4] == StepModel::PublishMarker);
}

/// A finished migration leaves everything that the document said to a reader, the marker of the
/// new store as the authority, and the exact bytes of the document in the archive. A document
/// that has a list of databases is read back as it was.
pub proof fn law_finished_migration_preserves_the_document(
    disk: Disk,
    document: DocumentModel,
    raw: Seq<u8>,
    identity: Seq<char>,
    origin: Seq<char>,
)
    requires
        disk.authority == AuthorityFile::Document(document),
        disk.lock is Some,
        document.extras.dom().disjoint(known_fields(Entity::State)),
        can_archive(disk, raw),
    ensures
        ({
            let steps = legacy_steps(raw);
            let after = performed_upto(
                disk,
                steps,
                raw,
                identity,
                origin,
                document,
                steps.len() as int,
            );
            &&& after.readable() == Ok::<DocumentModel, ReadError>(completed(document))
            &&& document.opencode_databases is Some ==> completed(document) == document
            &&& after.authority == AuthorityFile::Marker(identity)
            &&& after.archives.contains_key(archive_name_of(raw))
            &&& after.archives[archive_name_of(raw)] == raw
        }),
{
    let steps = legacy_steps(raw);
    law_import_export_round_trip(document);
    reveal_with_fuel(performed_upto, 6);
    assert(steps.len() == 5);
    assert(steps[0] == StepModel::Archive(archive_name_of(raw)));
    assert(steps[1] == StepModel::Import);
    assert(steps[2] == StepModel::Truncate);
    assert(steps[3] == StepModel::SyncDatabase);
    assert(steps[4] == StepModel::PublishMarker);
}

/// Archives are only ever added, and none is ever changed.
pub proof fn law_archives_are_kept(
    disk: Disk,
    steps: Seq<StepModel>,
    raw: Seq<u8>,
    identity: Seq<char>,
    origin: Seq<char>,
    document: DocumentModel,
    n: int,
)
    ensures
        disk.archives.submap_of(
            performed_upto(disk, steps, raw, identity, origin, document, n).archives,
        ),
    decreases n,
{
    if n > 0 {
        law_archives_are_kept(disk, steps, raw, identity, origin, document, n - 1);
    }
}

/// What a reader finds. A document is read as it is. A marker leads to the contents of the
/// database that it names, as long as the lock is there. Without authority the state is empty,
/// with the first id next, as long as there is no database or only what an initialization left
/// that was interrupted.
pub proof fn law_readers_find_what_has_authority(
    document: DocumentModel,
    identity: Seq<char>,
    version: i64,
    found: Seq<char>,
    origin: Seq<char>,
    contents: StoreModel,
    database: Option<DatabaseFile>,
    lock: Option<Seq<char>>,
    receipt: Seq<char>,
)
    ensures
        readable(AuthorityFile::Document(document), database, lock) == Ok::<
            DocumentModel,
            ReadError,
        >(document),
        version == 1 && found == identity && exported(contents) is Ok ==> readable(
            AuthorityFile::Marker(identity),
            Some(DatabaseFile::Filled { version, identity: found, origin, contents }),
            Some(receipt),
        ) == Ok::<DocumentModel, ReadError>(exported(contents)->Ok_0),
        readable(AuthorityFile::Missing, None, lock) == Ok::<DocumentModel, ReadError>(
            empty_document(),
        ),
        receipt == "bootstrap:"@ + identity && is_identity(identity) ==> {
            &&& readable(AuthorityFile::Missing, Some(DatabaseFile::Blank), Some(receipt)) == Ok::<
                DocumentModel,
                ReadError,
            >(empty_document())
            &&& version == 1 && found == identity && origin == receipt && contents == imported(
                empty_document(),
            ) ==> readable(
                AuthorityFile::Missing,
                Some(DatabaseFile::Filled { version, identity: found, origin, contents }),
                Some(receipt),
            ) == Ok::<DocumentModel, ReadError>(empty_document())
        },
        readable(AuthorityFile::Missing, Some(DatabaseFile::Blank), None) is Err,
        receipt_identity(receipt) is Err ==> readable(
            AuthorityFile::Missing,
            Some(DatabaseFile::Blank),
            Some(receipt),
        ) is Err,
        empty_document().next_doc_id == 1,
        empty_document().files.dom() =~= Set::<Seq<char>>::empty(),
        empty_document().extras.dom() =~= Set::<Seq<char>>::empty(),
        empty_document().opencode_databases is Some,
        empty_document().opencode_databases.unwrap().dom() =~= Set::<Seq<char>>::empty(),
{
    crate::lifecycle::law_receipts_are_read_strictly(receipt, identity);
    crate::checkpoint::law_import_and_export_take_everything_over(
        empty_document(),
        imported(empty_document()),
        receipt,
    );
}

} // verus!
