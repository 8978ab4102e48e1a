//! The checkpoint store: sparse updates, the rows they write, and the conversion between the
//! store and a single state document.

use vstd::prelude::*;
use crate::codec::{
    database_payload, extensions_of, file_payload, law_file_rows_are_updated_throughout,
    merged_file, preserved_each, Entity, Fields,
    FieldsModel, FilePayload, PayloadModel,
};
use crate::keys::{TextMap, TextSet};
use crate::model::Modeled;
use crate::sorted::{lemma_take_members, SortedMap, SortedSet};
use crate::state::{
    DatabaseModel, FileModel, FileState, IngestState, OpencodeDatabaseState, StateModel,
};
use crate::text::{
    decimal, ends_with, equals, is_hex_digest, law_rendered_number_is_parsed, parse_u64,
    parsed_u64, render_u64, starts_with, strip_prefix, strip_suffix, valid_hex_digest,
};

verus! {

/// The name of the checkpoint database.
pub const DATABASE: &'static str = "checkpoints.sqlite";

/// The name of the lock that protects the lifetime of database handles.
pub const LOCK: &'static str = ".checkpoints.lock";

/// The format of the checkpoint database.
pub const FORMAT_VERSION: i64 = 1;

/// The tables of the database. A payload is a JSON object whose member `mtime` is an integer,
/// by which the rows are indexed.
pub const SCHEMA: &'static str = "
CREATE TABLE IF NOT EXISTS metadata (
    singleton INTEGER PRIMARY KEY CHECK(singleton=1),
    format_version INTEGER NOT NULL,
    store_id TEXT NOT NULL,
    origin TEXT NOT NULL,
    next_doc_id TEXT NOT NULL CHECK(typeof(next_doc_id)='text'),
    opencode_databases TEXT NOT NULL CHECK(json_valid(opencode_databases) AND json_type(opencode_databases)='object'),
    legacy_extras TEXT NOT NULL CHECK(json_valid(legacy_extras) AND json_type(legacy_extras)='object')
);
CREATE TABLE IF NOT EXISTS files (
    path TEXT PRIMARY KEY NOT NULL,
    payload TEXT NOT NULL CHECK(json_valid(payload) AND json_type(payload)='object'),
    mtime INTEGER GENERATED ALWAYS AS (json_extract(payload,'$.mtime')) STORED NOT NULL
        CHECK(json_type(payload,'$.mtime')='integer' AND typeof(mtime)='integer')
);
CREATE INDEX IF NOT EXISTS files_mtime ON files(mtime);
";

/// Queries the rows of the files that were modified at or after a time, by the index alone.
pub const HOT_FILES: &'static str = "SELECT path, payload FROM files WHERE mtime >= ?1";

/// Queries the keys of all files, without their payloads.
pub const FILE_KEYS: &'static str = "SELECT path FROM files";

/// Queries whether a file has a row.
pub const HAS_FILE: &'static str = "SELECT EXISTS(SELECT 1 FROM files WHERE path=?1)";

/// Queries the payload of a file.
pub const FILE_PAYLOAD: &'static str = "SELECT payload FROM files WHERE path=?1";

/// Writes the row of a file.
pub const WRITE_FILE: &'static str =
    "INSERT INTO files(path,payload) VALUES(?1,?2)
    ON CONFLICT(path) DO UPDATE SET payload=excluded.payload";

/// The digest in the name of an archived state document.
pub open spec fn archive_digest(name: Seq<char>) -> Option<Seq<char>> {
    let prefix = "ingest.legacy-"@;
    let suffix = ".json"@;
    if starts_with(name, prefix) && ends_with(name.skip(prefix.len() as int), suffix) {
        Some(name.skip(prefix.len() as int).take(name.len() - prefix.len() - suffix.len()))
    } else {
        None
    }
}

/// The name belongs to a file that the checkpoint store generates.
pub open spec fn is_artifact(name: Seq<char>) -> bool {
    ||| name == DATABASE@
    ||| name == "checkpoints.sqlite-wal"@
    ||| name == "checkpoints.sqlite-shm"@
    ||| name == "checkpoints.sqlite-journal"@
    ||| name == LOCK@
    ||| name == "ingest.json"@
    ||| archive_digest(name) matches Some(digest) && is_hex_digest(digest)
}

/// Whether the name belongs to a file that the checkpoint store generates.
pub fn is_checkpoint_artifact_name(name: &str) -> (result: bool)
    ensures
        result == is_artifact(name@),
{
    if equals(name, DATABASE) || equals(name, "checkpoints.sqlite-wal") || equals(
        name,
        "checkpoints.sqlite-shm",
    ) || equals(name, "checkpoints.sqlite-journal") || equals(name, LOCK) || equals(
        name,
        "ingest.json",
    ) {
        return true;
    }
    match strip_prefix(name, "ingest.legacy-") {
        Some(suffix) => match strip_suffix(suffix, ".json") {
            Some(digest) => valid_hex_digest(digest),
            None => false,
        },
        None => false,
    }
}

/// Why a stored document id is refused.
#[derive(Clone, Copy, Debug, PartialEq, Eq, Structural)]
pub enum NextIdError {
    Invalid,
    Noncanonical,
}

/// What a stored document id stands for: only the canonical digits of a machine integer do.
pub open spec fn stored_id(text: Seq<char>) -> Result<u64, NextIdError> {
    match parsed_u64(text) {
        None => Err(NextIdError::Invalid),
        Some(id) => if decimal(id as nat) == text {
            Ok(id)
        } else {
            Err(NextIdError::Noncanonical)
        },
    }
}

/// Reads a stored document id.
pub fn parse_next_id(text: &str) -> (id: Result<u64, NextIdError>)
    ensures
        id == stored_id(text@),
{
    match parse_u64(text) {
        None => Err(NextIdError::Invalid),
        Some(id) => if equals(render_u64(id).as_str(), text) {
            Ok(id)
        } else {
            Err(NextIdError::Noncanonical)
        },
    }
}

/// A stored document id is read back, and is stored in one way only.
pub proof fn law_next_id_round_trip(id: u64, text: Seq<char>)
    ensures
        stored_id(decimal(id as nat)) == Ok::<u64, NextIdError>(id),
        stored_id(text) == Ok::<u64, NextIdError>(id) ==> text == decimal(id as nat),
{
    law_rendered_number_is_parsed(id);
}

/// The small part of a checkpoint that every refresh reads.
pub struct CheckpointHeader {
    pub next_doc_id: u64,
    pub opencode_databases: TextMap<OpencodeDatabaseState>,
}

/// A sparse change of a checkpoint.
pub struct CheckpointDelta {
    pub upserts: TextMap<FileState>,
    pub deletes: TextSet,
    pub clear_files: bool,
    pub next_doc_id: Option<u64>,
    pub opencode_databases: Option<TextMap<OpencodeDatabaseState>>,
}

/// The model of [`CheckpointDelta`].
#[verifier::ext_equal]
pub struct DeltaModel {
    pub upserts: Map<Seq<char>, FileModel>,
    pub deletes: Set<Seq<char>>,
    pub clear_files: bool,
    pub next_doc_id: Option<u64>,
    pub opencode_databases: Option<Map<Seq<char>, DatabaseModel>>,
}

impl DeltaModel {
    /// Nothing changes.
    pub open spec fn is_empty(self) -> bool {
        &&& self.upserts.dom() == Set::<Seq<char>>::empty()
        &&& self.deletes == Set::<Seq<char>>::empty()
        &&& !self.clear_files
        &&& self.next_doc_id is None
        &&& self.opencode_databases is None
    }
}

/// The change that changes nothing.
pub open spec fn no_change() -> DeltaModel {
    DeltaModel {
        upserts: Map::empty(),
        deletes: Set::empty(),
        clear_files: false,
        next_doc_id: None,
        opencode_databases: None,
    }
}

impl DeepView for CheckpointDelta {
    type V = DeltaModel;

    open spec fn deep_view(&self) -> DeltaModel {
        DeltaModel {
            upserts: self.upserts.deep_view(),
            deletes: self.deletes.deep_view(),
            clear_files: self.clear_files,
            next_doc_id: self.next_doc_id,
            opencode_databases: self.opencode_databases.deep_view(),
        }
    }
}

impl Default for CheckpointDelta {
    fn default() -> (delta: Self)
        ensures
            delta.deep_view() == no_change(),
    {
        CheckpointDelta {
            upserts: SortedMap::new(),
            deletes: SortedSet::new(),
            clear_files: false,
            next_doc_id: None,
            opencode_databases: None,
        }
    }
}

impl CheckpointDelta {
    /// Whether nothing changes, so that no transaction is needed.
    pub fn is_empty(&self) -> (result: bool)
        ensures
            result == self.deep_view().is_empty(),
    {
        let upserts = self.upserts.len();
        let deletes = self.deletes.len();
        proof {
            assert(upserts == 0 ==> self.upserts.deep_view().dom() =~= Set::empty());
            assert(deletes == 0 ==> self.deletes.deep_view() =~= Set::empty());
        }
        upserts == 0 && deletes == 0 && !self.clear_files && self.next_doc_id.is_none()
            && self.opencode_databases.is_none()
    }
}

/// The change that turns a store with these file keys into a copy of `state`.
pub open spec fn snapshot_delta(stored: Set<Seq<char>>, state: StateModel) -> DeltaModel {
    DeltaModel {
        upserts: state.files,
        deletes: stored.difference(state.files.dom()),
        clear_files: false,
        next_doc_id: Some(state.next_doc_id),
        opencode_databases: Some(state.opencode_databases),
    }
}

/// The change that turns a store with these file keys into a copy of `state`.
pub fn replace_snapshot(stored: &Vec<String>, state: &IngestState) -> (delta: CheckpointDelta)
    ensures
        delta.deep_view() == snapshot_delta(stored.deep_view().to_set(), state.deep_view()),
{
    let ghost keys = stored.deep_view();
    let ghost files = state.files.deep_view();
    let mut deletes: TextSet = SortedSet::new();
    let mut i: usize = 0;
    assert(deletes.deep_view() =~= keys.take(0).to_set().difference(files.dom()));
    while i < stored.len()
        invariant
            i <= stored@.len(),
            keys == stored.deep_view(),
            files == state.files.deep_view(),
            deletes.deep_view() == keys.take(i as int).to_set().difference(files.dom()),
        decreases stored@.len() - i,
    {
        let path = &stored[i];
        if !state.files.contains_key(path) {
            deletes.insert(path.duplicate());
        }
        proof {
            lemma_take_members(keys, i as int);
            assert(keys[i as int] == stored@[i as int].deep_view());
            assert(deletes.deep_view() =~= keys.take(i + 1).to_set().difference(files.dom()));
        }
        i += 1;
    }
    assert(keys.take(i as int) =~= keys);
    CheckpointDelta {
        upserts: state.files.duplicate(),
        deletes,
        clear_files: false,
        next_doc_id: Some(state.next_doc_id),
        opencode_databases: Some(state.opencode_databases.duplicate()),
    }
}

/// A change whose files and databases are in the form that the store keeps.
pub struct EncodedDelta {
    pub upserts: TextMap<FilePayload>,
    pub deletes: TextSet,
    pub clear_files: bool,
    pub next_doc_id: Option<u64>,
    pub opencode_databases: Option<TextMap<Fields>>,
}

/// The model of [`EncodedDelta`], and of the rows that it writes.
#[verifier::ext_equal]
pub struct EncodedModel {
    pub upserts: Map<Seq<char>, PayloadModel>,
    pub deletes: Set<Seq<char>>,
    pub clear_files: bool,
    pub next_doc_id: Option<u64>,
    pub opencode_databases: Option<Map<Seq<char>, FieldsModel>>,
}

impl DeepView for EncodedDelta {
    type V = EncodedModel;

    open spec fn deep_view(&self) -> EncodedModel {
        EncodedModel {
            upserts: self.upserts.deep_view(),
            deletes: self.deletes.deep_view(),
            clear_files: self.clear_files,
            next_doc_id: self.next_doc_id,
            opencode_databases: self.opencode_databases.deep_view(),
        }
    }
}

/// The rows and fields to write in one transaction: first the clearing, then the deletions,
/// then the rows, then the fields.
pub struct StoreWrites {
    pub clear_files: bool,
    pub deletes: TextSet,
    pub upserts: TextMap<FilePayload>,
    pub next_doc_id: Option<String>,
    pub opencode_databases: Option<TextMap<Fields>>,
}

/// The model of [`StoreWrites`].
#[verifier::ext_equal]
pub struct WritesModel {
    pub clear_files: bool,
    pub deletes: Set<Seq<char>>,
    pub upserts: Map<Seq<char>, PayloadModel>,
    pub next_doc_id: Option<Seq<char>>,
    pub opencode_databases: Option<Map<Seq<char>, FieldsModel>>,
}

impl DeepView for StoreWrites {
    type V = WritesModel;

    open spec fn deep_view(&self) -> WritesModel {
        WritesModel {
            clear_files: self.clear_files,
            deletes: self.deletes.deep_view(),
            upserts: self.upserts.deep_view(),
            next_doc_id: self.next_doc_id.deep_view(),
            opencode_databases: self.opencode_databases.deep_view(),
        }
    }
}

/// The contents of a checkpoint store.
#[verifier::ext_equal]
pub struct StoreModel {
    pub next_doc_id: Seq<char>,
    pub opencode_databases: Map<Seq<char>, FieldsModel>,
    pub extras: FieldsModel,
    pub files: Map<Seq<char>, PayloadModel>,
}

/// The row that an update of a file replaces: none where the same change removes it first.
pub open spec fn replaced_row(
    files: Map<Seq<char>, PayloadModel>,
    delta: EncodedModel,
    path: Seq<char>,
) -> Option<PayloadModel> {
    if delta.clear_files || delta.deletes.contains(path) || !files.contains_key(path) {
        None
    } else {
        Some(files[path])
    }
}

/// The rows that a change writes, given the rows and databases stored before.
pub open spec fn planned_writes(
    delta: EncodedModel,
    files: Map<Seq<char>, PayloadModel>,
    databases: Map<Seq<char>, FieldsModel>,
) -> WritesModel {
    WritesModel {
        clear_files: delta.clear_files,
        deletes: delta.deletes,
        upserts: Map::new(
            |path: Seq<char>| delta.upserts.contains_key(path),
            |path: Seq<char>| merged_file(delta.upserts[path], replaced_row(files, delta, path)),
        ),
        next_doc_id: match delta.next_doc_id {
            Some(id) => Some(decimal(id as nat)),
            None => None,
        },
        opencode_databases: match delta.opencode_databases {
            Some(current) => Some(preserved_each(Entity::Database, current, databases)),
            None => None,
        },
    }
}

/// The change writes nothing.
pub open spec fn writes_nothing(delta: EncodedModel) -> bool {
    &&& delta.upserts.dom() == Set::<Seq<char>>::empty()
    &&& delta.deletes == Set::<Seq<char>>::empty()
    &&& !delta.clear_files
    &&& delta.next_doc_id is None
    &&& delta.opencode_databases is None
}

/// Plans the rows that a change writes. `files` holds the stored rows of the files it updates,
/// and may hold others; a change that writes nothing needs no transaction.
pub fn plan_commit(
    delta: &EncodedDelta,
    files: &TextMap<FilePayload>,
    databases: &TextMap<Fields>,
) -> (writes: Option<StoreWrites>)
    ensures
        match writes {
            Some(writes) => !writes_nothing(delta.deep_view()) && writes.deep_view()
                == planned_writes(delta.deep_view(), files.deep_view(), databases.deep_view()),
            None => writes_nothing(delta.deep_view()),
        },
{
    let ghost model = delta.deep_view();
    let count = delta.upserts.len();
    let deletes = delta.deletes.len();
    proof {
        assert(count == 0 ==> delta.upserts.deep_view().dom() =~= Set::empty());
        assert(deletes == 0 ==> delta.deletes.deep_view() =~= Set::empty());
    }
    if count == 0 && deletes == 0 && !delta.clear_files && delta.next_doc_id.is_none()
        && delta.opencode_databases.is_none() {
        return None;
    }
    let ghost keys = delta.upserts.keys();
    let ghost wanted = planned_writes(model, files.deep_view(), databases.deep_view()).upserts;
    let mut upserts: TextMap<FilePayload> = SortedMap::new();
    let mut i: usize = 0;
    assert(upserts.deep_view() =~= wanted.restrict(keys.take(0).to_set()));
    while i < count
        invariant
            i <= count,
            count == keys.len(),
            keys == delta.upserts.keys(),
            model == delta.deep_view(),
            model.upserts.dom() == keys.to_set(),
            wanted == planned_writes(model, files.deep_view(), databases.deep_view()).upserts,
            upserts.deep_view() == wanted.restrict(keys.take(i as int).to_set()),
        decreases count - i,
    {
        let path = delta.upserts.key_at(i);
        let previous = if delta.clear_files || delta.deletes.contains(path) {
            None
        } else {
            files.get(path)
        };
        let payload = file_payload(delta.upserts.value_at(i), previous);
        upserts.insert(path.duplicate(), payload);
        proof {
            lemma_take_members(keys, i as int);
            assert(upserts.deep_view() =~= wanted.restrict(keys.take(i + 1).to_set()));
        }
        i += 1;
    }
    assert(keys.take(i as int) =~= keys);
    assert(wanted.restrict(keys.to_set()) =~= wanted);
    Some(
        StoreWrites {
            clear_files: delta.clear_files,
            deletes: delta.deletes.duplicate(),
            upserts,
            next_doc_id: match delta.next_doc_id {
                Some(id) => Some(render_u64(id)),
                None => None,
            },
            opencode_databases: match &delta.opencode_databases {
                Some(current) => Some(database_payload(current, databases)),
                None => None,
            },
        },
    )
}

/// The store after the writes.
pub open spec fn written(store: StoreModel, writes: WritesModel) -> StoreModel {
    StoreModel {
        files: (if writes.clear_files {
            Map::empty()
        } else {
            store.files
        }).remove_keys(writes.deletes).union_prefer_right(writes.upserts),
        next_doc_id: match writes.next_doc_id {
            Some(id) => id,
            None => store.next_doc_id,
        },
        opencode_databases: match writes.opencode_databases {
            Some(databases) => databases,
            None => store.opencode_databases,
        },
        extras: store.extras,
    }
}

/// The store after a change.
pub open spec fn committed(store: StoreModel, delta: EncodedModel) -> StoreModel {
    written(store, planned_writes(delta, store.files, store.opencode_databases))
}

/// A sparse change leaves every file that it does not mention as it is, and every field that
/// it does not set.
pub proof fn law_sparse_change_is_local(store: StoreModel, delta: EncodedModel, path: Seq<char>)
    requires
        !delta.clear_files,
        !delta.deletes.contains(path),
        !delta.upserts.contains_key(path),
    ensures
        committed(store, delta).files.contains_key(path) == store.files.contains_key(path),
        store.files.contains_key(path) ==> committed(store, delta).files[path] == store.files[path],
        delta.next_doc_id is None ==> committed(store, delta).next_doc_id == store.next_doc_id,
        delta.opencode_databases is None ==> committed(store, delta).opencode_databases
            == store.opencode_databases,
        committed(store, delta).extras == store.extras,
{
}

/// Clearing all files keeps the document id, the databases and the extensions unless the same
/// change sets them, and leaves only the files that the change writes.
pub proof fn law_clearing_keeps_the_rest(store: StoreModel, delta: EncodedModel)
    requires
        delta.clear_files,
    ensures
        committed(store, delta).files.dom() =~= delta.upserts.dom(),
        delta.next_doc_id is None ==> committed(store, delta).next_doc_id == store.next_doc_id,
        delta.opencode_databases is None ==> committed(store, delta).opencode_databases
            == store.opencode_databases,
        committed(store, delta).extras == store.extras,
{
}

/// Removing a file or a database removes what was kept for it: written again later, it holds
/// only what is written then.
pub proof fn law_removed_entities_lose_their_extensions(
    store: StoreModel,
    removal: EncodedModel,
    update: EncodedModel,
    path: Seq<char>,
)
    ensures
        ({
            let after = committed(committed(store, removal), update);
            &&& (removal.clear_files || removal.deletes.contains(path))
                && !removal.upserts.contains_key(path) && update.upserts.contains_key(path)
                ==> after.files[path] == update.upserts[path]
            &&& (removal.opencode_databases matches Some(left) && !left.contains_key(path)) && (
            update.opencode_databases matches Some(current) && current.contains_key(path))
                ==> after.opencode_databases[path] == update.opencode_databases.unwrap()[path]
        }),
{
    let between = committed(store, removal);
    if (removal.clear_files || removal.deletes.contains(path)) && !removal.upserts.contains_key(
        path,
    ) && update.upserts.contains_key(path) {
        assert(!between.files.contains_key(path));
        assert(merged_file(update.upserts[path], None) =~~= update.upserts[path]);
    }
}

/// A change that writes nothing changes nothing.
pub proof fn law_empty_change_is_the_identity(store: StoreModel, delta: EncodedModel)
    requires
        writes_nothing(delta),
    ensures
        committed(store, delta) == store,
{
    assert(committed(store, delta).files =~= store.files);
}

/// The files whose stored rows a change reads: those that it updates, and does not remove
/// first.
pub open spec fn rows_read(delta: EncodedModel) -> Set<Seq<char>> {
    if delta.clear_files {
        Set::empty()
    } else {
        delta.upserts.dom().difference(delta.deletes)
    }
}

/// The files whose stored rows have to be read before a change is planned.
pub fn rows_to_read(delta: &EncodedDelta) -> (paths: Vec<String>)
    ensures
        paths.deep_view().to_set() == rows_read(delta.deep_view()),
        paths.deep_view().no_duplicates(),
{
    let mut paths: TextSet = SortedSet::new();
    if !delta.clear_files {
        let ghost keys = delta.upserts.keys();
        let ghost removed = delta.deletes.deep_view();
        let count = delta.upserts.len();
        let mut i: usize = 0;
        assert(paths.deep_view() =~= keys.take(0).to_set().difference(removed));
        while i < count
            invariant
                i <= count,
                count == keys.len(),
                keys == delta.upserts.keys(),
                removed == delta.deletes.deep_view(),
                paths.deep_view() == keys.take(i as int).to_set().difference(removed),
            decreases count - i,
        {
            let path = delta.upserts.key_at(i);
            if !delta.deletes.contains(path) {
                paths.insert(path.duplicate());
            }
            proof {
                lemma_take_members(keys, i as int);
                assert(paths.deep_view() =~= keys.take(i + 1).to_set().difference(removed));
            }
            i += 1;
        }
        assert(keys.take(i as int) =~= keys);
    }
    paths.list()
}

/// The rows read beforehand matter only where the change reads them.
pub proof fn law_plan_needs_updated_rows_only(
    delta: EncodedModel,
    files: Map<Seq<char>, PayloadModel>,
    other: Map<Seq<char>, PayloadModel>,
    databases: Map<Seq<char>, FieldsModel>,
)
    requires
        forall|path: Seq<char>| #[trigger]
            rows_read(delta).contains(path) ==> files.contains_key(path) == other.contains_key(path)
                && (files.contains_key(path) ==> files[path] == other[path]),
    ensures
        planned_writes(delta, files, databases) == planned_writes(delta, other, databases),
{
    assert forall|path: Seq<char>| delta.upserts.contains_key(path) implies replaced_row(
        files,
        delta,
        path,
    ) == replaced_row(other, delta, path) by {
        if !delta.clear_files && !delta.deletes.contains(path) {
            assert(rows_read(delta).contains(path));
        }
    }
    assert(planned_writes(delta, files, databases).upserts =~= planned_writes(
        delta,
        other,
        databases,
    ).upserts);
}

/// A replaced snapshot leaves exactly the files of the new state.
pub proof fn law_snapshot_replaces_all_files(store: StoreModel, delta: EncodedModel)
    requires
        !delta.clear_files,
        delta.deletes == store.files.dom().difference(delta.upserts.dom()),
    ensures
        committed(store, delta).files.dom() =~= delta.upserts.dom(),
{
}

/// A whole checkpoint as one document.
pub struct StateDocument {
    pub next_doc_id: u64,
    pub files: TextMap<FilePayload>,
    pub opencode_databases: Option<TextMap<Fields>>,
    /// The fields that are not known.
    pub extras: Fields,
}

/// The model of [`StateDocument`].
#[verifier::ext_equal]
pub struct DocumentModel {
    pub next_doc_id: u64,
    pub files: Map<Seq<char>, PayloadModel>,
    pub opencode_databases: Option<Map<Seq<char>, FieldsModel>>,
    pub extras: FieldsModel,
}

impl DeepView for StateDocument {
    type V = DocumentModel;

    open spec fn deep_view(&self) -> DocumentModel {
        DocumentModel {
            next_doc_id: self.next_doc_id,
            files: self.files.deep_view(),
            opencode_databases: self.opencode_databases.deep_view(),
            extras: self.extras.deep_view(),
        }
    }
}

impl Modeled for StateDocument {
    fn duplicate(&self) -> (copy: Self) {
        StateDocument {
            next_doc_id: self.next_doc_id,
            files: self.files.duplicate(),
            opencode_databases: self.opencode_databases.duplicate(),
            extras: self.extras.duplicate(),
        }
    }

    fn same(&self, other: &Self) -> (equal: bool) {
        self.next_doc_id == other.next_doc_id && self.files.same(&other.files)
            && self.opencode_databases.same(&other.opencode_databases) && self.extras.same(
            &other.extras,
        )
    }
}

/// What a checkpoint store holds.
pub struct StoreContents {
    pub next_doc_id: String,
    pub opencode_databases: TextMap<Fields>,
    pub extras: Fields,
    pub files: TextMap<FilePayload>,
}

impl DeepView for StoreContents {
    type V = StoreModel;

    open spec fn deep_view(&self) -> StoreModel {
        StoreModel {
            next_doc_id: self.next_doc_id@,
            opencode_databases: self.opencode_databases.deep_view(),
            extras: self.extras.deep_view(),
            files: self.files.deep_view(),
        }
    }
}

/// What a document becomes in the store: its files as they are, no databases where it lists
/// none, and its unknown fields kept aside.
pub open spec fn imported(document: DocumentModel) -> StoreModel {
    StoreModel {
        next_doc_id: decimal(document.next_doc_id as nat),
        opencode_databases: match document.opencode_databases {
            Some(databases) => databases,
            None => Map::empty(),
        },
        extras: extensions_of(Entity::State, document.extras),
        files: document.files,
    }
}

/// What a store is as a document, if its document id can be read.
pub open spec fn exported(store: StoreModel) -> Result<DocumentModel, NextIdError> {
    match stored_id(store.next_doc_id) {
        Ok(id) => Ok(
            DocumentModel {
                next_doc_id: id,
                files: store.files,
                opencode_databases: Some(store.opencode_databases),
                extras: store.extras,
            },
        ),
        Err(error) => Err(error),
    }
}

/// Turns a document into the contents of a store.
pub fn import_document(document: &StateDocument) -> (store: StoreContents)
    ensures
        store.deep_view() == imported(document.deep_view()),
{
    StoreContents {
        next_doc_id: render_u64(document.next_doc_id),
        opencode_databases: match &document.opencode_databases {
            Some(databases) => databases.duplicate(),
            None => SortedMap::new(),
        },
        extras: crate::codec::legacy_extras(&document.extras),
        files: document.files.duplicate(),
    }
}

/// Turns the contents of a store into a document.
pub fn export_document(store: &StoreContents) -> (document: Result<StateDocument, NextIdError>)
    ensures
        match document {
            Ok(document) => exported(store.deep_view()) == Ok::<DocumentModel, NextIdError>(
                document.deep_view(),
            ),
            Err(error) => exported(store.deep_view()) == Err::<DocumentModel, NextIdError>(error),
        },
{
    match parse_next_id(store.next_doc_id.as_str()) {
        Ok(next_doc_id) => Ok(
            StateDocument {
                next_doc_id,
                files: store.files.duplicate(),
                opencode_databases: Some(store.opencode_databases.duplicate()),
                extras: store.extras.duplicate(),
            },
        ),
        Err(error) => Err(error),
    }
}

/// What was imported is exported again: every document id, file, database and extension, with
/// an empty list of databases where the document had none.
pub proof fn law_import_export_round_trip(document: DocumentModel)
    requires
        document.extras.dom().disjoint(crate::codec::known_fields(Entity::State)),
    ensures
        exported(imported(document)) == Ok::<DocumentModel, NextIdError>(
            DocumentModel {
                opencode_databases: Some(
                    match document.opencode_databases {
                        Some(databases) => databases,
                        None => Map::empty(),
                    },
                ),
                ..document
            },
        ),
{
    law_next_id_round_trip(document.next_doc_id, decimal(document.next_doc_id as nat));
    assert(extensions_of(Entity::State, document.extras) =~= document.extras);
}

/// A checkpoint that is read from one document: the document as it is, and the state that it
/// describes.
pub struct CheckpointReader {
    pub document: StateDocument,
    pub state: IngestState,
}

impl CheckpointReader {
    /// The state describes the files of the document.
    pub open spec fn consistent(&self) -> bool {
        self.state.files.deep_view().dom() == self.document.files.deep_view().dom()
    }

    /// The small part that every refresh reads.
    pub fn header(&self) -> (header: CheckpointHeader)
        ensures
            header.next_doc_id == self.state.next_doc_id,
            header.opencode_databases.deep_view() == self.state.opencode_databases.deep_view(),
    {
        CheckpointHeader {
            next_doc_id: self.state.next_doc_id,
            opencode_databases: self.state.opencode_databases.duplicate(),
        }
    }

    /// The requested files, each with its state or the fact that it has none.
    pub fn load_files(&self, paths: &Vec<String>) -> (loaded: TextMap<Option<FileState>>)
        ensures
            loaded.deep_view() == looked_up(
                self.state.files.deep_view(),
                paths.deep_view().to_set(),
            ),
    {
        let ghost keys = paths.deep_view();
        let ghost files = self.state.files.deep_view();
        let mut loaded: TextMap<Option<FileState>> = SortedMap::new();
        let mut i: usize = 0;
        assert(loaded.deep_view() =~= looked_up(files, keys.take(0).to_set()));
        while i < paths.len()
            invariant
                i <= paths@.len(),
                keys == paths.deep_view(),
                files == self.state.files.deep_view(),
                loaded.deep_view() == looked_up(files, keys.take(i as int).to_set()),
            decreases paths@.len() - i,
        {
            let path = &paths[i];
            let file = match self.state.files.get(path) {
                Some(file) => Some(file.duplicate()),
                None => None,
            };
            loaded.insert(path.duplicate(), file);
            proof {
                lemma_take_members(keys, i as int);
                assert(keys[i as int] == paths@[i as int].deep_view());
                assert(loaded.deep_view() =~= looked_up(files, keys.take(i + 1).to_set()));
            }
            i += 1;
        }
        assert(keys.take(i as int) =~= keys);
        loaded
    }

    /// Whether a file has a row.
    pub fn contains_file(&self, path: &String) -> (found: bool)
        ensures
            found == self.document.files.deep_view().contains_key(path@),
    {
        self.document.files.contains_key(path)
    }

    /// The keys of all files.
    pub fn file_keys(&self) -> (keys: Vec<String>)
        ensures
            keys.deep_view().to_set() == self.document.files.deep_view().dom(),
            keys.deep_view().no_duplicates(),
    {
        self.document.files.key_list()
    }

    /// Whether some file is not among the excluded ones.
    pub fn has_files_excluding(&self, excluded: &TextSet) -> (result: bool)
        ensures
            result == exists|path: Seq<char>|
                self.document.files.deep_view().contains_key(path)
                    && !excluded.deep_view().contains(path),
    {
        let keys = self.file_keys();
        any_outside(&keys, excluded)
    }

    /// The files that were modified at or after `since`.
    pub fn hot_files_since(&self, since: i64) -> (files: TextMap<FileState>)
        ensures
            files.deep_view() == modified_since(self.state.files.deep_view(), since),
    {
        let ghost model = self.state.files.deep_view();
        let ghost keys = self.state.files.keys();
        let ghost wanted = modified_since(model, since);
        let mut files: TextMap<FileState> = SortedMap::new();
        let count = self.state.files.len();
        let mut i: usize = 0;
        assert(files.deep_view() =~= wanted.restrict(keys.take(0).to_set()));
        while i < count
            invariant
                i <= count,
                count == keys.len(),
                keys == self.state.files.keys(),
                model == self.state.files.deep_view(),
                model.dom() == keys.to_set(),
                wanted == modified_since(model, since),
                files.deep_view() == wanted.restrict(keys.take(i as int).to_set()),
            decreases count - i,
        {
            let path = self.state.files.key_at(i);
            let file = self.state.files.value_at(i);
            if file.mtime >= since {
                files.insert(path.duplicate(), file.duplicate());
            }
            proof {
                lemma_take_members(keys, i as int);
                assert(files.deep_view() =~= wanted.restrict(keys.take(i + 1).to_set()));
            }
            i += 1;
        }
        assert(keys.take(i as int) =~= keys);
        assert(wanted.restrict(keys.to_set()) =~= wanted);
        files
    }

    /// The paths whose source is a database with a write-ahead log. Their own modification
    /// times can stay cold while commits go to the log.
    pub fn sqlite_backed_paths(&self) -> (paths: Vec<String>)
        ensures
            paths.deep_view().to_set() == sqlite_backed(self.state.files.deep_view()),
    {
        let ghost model = self.state.files.deep_view();
        let ghost keys = self.state.files.keys();
        let mut paths: TextSet = SortedSet::new();
        let count = self.state.files.len();
        let mut i: usize = 0;
        assert(paths.deep_view() =~= sqlite_backed(model).intersect(keys.take(0).to_set()));
        while i < count
            invariant
                i <= count,
                count == keys.len(),
                keys == self.state.files.keys(),
                model == self.state.files.deep_view(),
                model.dom() == keys.to_set(),
                paths.deep_view() == sqlite_backed(model).intersect(keys.take(i as int).to_set()),
            decreases count - i,
        {
            let path = self.state.files.key_at(i);
            if self.state.files.value_at(i).identity.sqlite_wal.is_some() {
                paths.insert(path.duplicate());
            }
            proof {
                lemma_take_members(keys, i as int);
                assert(paths.deep_view() =~= sqlite_backed(model).intersect(
                    keys.take(i + 1).to_set(),
                ));
            }
            i += 1;
        }
        assert(keys.take(i as int) =~= keys);
        assert(sqlite_backed(model).intersect(keys.to_set()) =~= sqlite_backed(model));
        paths.list()
    }

    /// The whole state.
    pub fn snapshot(&self) -> (state: IngestState)
        ensures
            state.deep_view() == self.state.deep_view(),
    {
        self.state.duplicate()
    }

    /// The whole document.
    pub fn export(&self) -> (document: StateDocument)
        ensures
            document.deep_view() == self.document.deep_view(),
    {
        self.document.duplicate()
    }
}

/// A file loads exactly where it is contained, and every requested path is answered: where the
/// state describes the files of the document, looking a path up finds a state if and only if
/// the document has a row for it.
pub proof fn law_contained_files_are_loaded(
    reader: CheckpointReader,
    paths: Set<Seq<char>>,
    path: Seq<char>,
)
    requires
        reader.consistent(),
        paths.contains(path),
    ensures
        ({
            let loaded = looked_up(reader.state.files.deep_view(), paths);
            &&& loaded.dom() == paths
            &&& loaded[path] is Some <==> reader.document.files.deep_view().contains_key(path)
        }),
{
    assert(looked_up(reader.state.files.deep_view(), paths).dom() =~= paths);
}

/// Each of the paths, with the file found for it or none.
pub open spec fn looked_up(
    files: Map<Seq<char>, FileModel>,
    paths: Set<Seq<char>>,
) -> Map<Seq<char>, Option<FileModel>> {
    Map::new(
        |path: Seq<char>| paths.contains(path),
        |path: Seq<char>|
            if files.contains_key(path) {
                Some(files[path])
            } else {
                None
            },
    )
}

/// The files that were modified at or after `since`.
pub open spec fn modified_since(
    files: Map<Seq<char>, FileModel>,
    since: i64,
) -> Map<Seq<char>, FileModel> {
    Map::new(
        |path: Seq<char>| files.contains_key(path) && files[path].mtime >= since,
        |path: Seq<char>| files[path],
    )
}

/// The paths whose source is a database with a write-ahead log.
pub open spec fn sqlite_backed(files: Map<Seq<char>, FileModel>) -> Set<Seq<char>> {
    Set::new(
        |path: Seq<char>| files.contains_key(path) && files[path].identity.sqlite_wal is Some,
    )
}

/// Whether some key is not among the excluded ones.
pub fn any_outside(keys: &Vec<String>, excluded: &TextSet) -> (result: bool)
    ensures
        result == exists|key: Seq<char>|
            keys.deep_view().to_set().contains(key) && !excluded.deep_view().contains(key),
{
    let ghost models = keys.deep_view();
    let mut i: usize = 0;
    while i < keys.len()
        invariant
            i <= keys@.len(),
            models == keys.deep_view(),
            forall|k: int|
                0 <= k < i ==> excluded.deep_view().contains(#[trigger] models[k]),
        decreases keys@.len() - i,
    {
        if !excluded.contains(&keys[i]) {
            proof {
                assert(models[i as int] == keys@[i as int].deep_view());
                assert(models.to_set().contains(models[i as int]));
            }
            return true;
        }
        assert(models[i as int] == keys@[i as int].deep_view());
        i += 1;
    }
    false
}

/// The recently modified files are those whose time is the given one or a later one, each with
/// its state. So an earlier time never gives fewer files, and the earliest gives all.
pub proof fn law_later_files_are_hot(
    files: Map<Seq<char>, FileModel>,
    since: i64,
    earlier: i64,
    path: Seq<char>,
)
    ensures
        files.contains_key(path) && files[path].mtime >= since ==> modified_since(
            files,
            since,
        ).contains_key(path) && modified_since(files, since)[path] == files[path],
        files.contains_key(path) && files[path].mtime < since ==> !modified_since(
            files,
            since,
        ).contains_key(path),
        !files.contains_key(path) ==> !modified_since(files, since).contains_key(path),
        earlier <= since ==> modified_since(files, since).submap_of(
            modified_since(files, earlier),
        ),
        modified_since(files, i64::MIN) == files,
{
    assert(modified_since(files, i64::MIN) =~= files);
}

/// Loading files answers for every path that is asked for and for no other: with the state of
/// the file, or with nothing where there is none.
pub proof fn law_loading_answers_what_is_asked(
    files: Map<Seq<char>, FileModel>,
    paths: Set<Seq<char>>,
    path: Seq<char>,
)
    ensures
        looked_up(files, paths).contains_key(path) <==> paths.contains(path),
        paths.contains(path) && files.contains_key(path) ==> looked_up(files, paths)[path] == Some(
            files[path],
        ),
        paths.contains(path) && !files.contains_key(path) ==> looked_up(files, paths)[path] is None,
        sqlite_backed(files).contains(path) <==> files.contains_key(path)
            && files[path].identity.sqlite_wal is Some,
{
}

/// What a commit leaves in the store. A file that the change writes is there afterwards: as it
/// was written where no earlier row survives the change, and else as an update of that row. A
/// file that the change deletes or clears and does not write is gone. Any other is untouched.
pub proof fn law_commits_write_what_changed(
    store: StoreModel,
    delta: EncodedModel,
    path: Seq<char>,
)
    ensures
        ({
            let after = committed(store, delta);
            let wiped = delta.clear_files || delta.deletes.contains(path);
            &&& after.files.contains_key(path) <==> delta.upserts.contains_key(path) || (!wiped
                && store.files.contains_key(path))
            &&& delta.upserts.contains_key(path) && (wiped || !store.files.contains_key(path))
                ==> after.files[path] == delta.upserts[path]
            &&& delta.upserts.contains_key(path) && !wiped && store.files.contains_key(path)
                ==> after.files[path] == merged_file(delta.upserts[path], Some(store.files[path]))
            &&& !delta.upserts.contains_key(path) && !wiped && store.files.contains_key(path)
                ==> after.files[path] == store.files[path]
            &&& after.extras == store.extras
            &&& delta.next_doc_id is None ==> after.next_doc_id == store.next_doc_id
            &&& delta.next_doc_id is Some ==> stored_id(after.next_doc_id) == Ok::<u64, NextIdError>(
                delta.next_doc_id.unwrap(),
            )
            &&& delta.opencode_databases is None ==> after.opencode_databases
                == store.opencode_databases
            &&& delta.opencode_databases is Some ==> after.opencode_databases.contains_key(path)
                == delta.opencode_databases.unwrap().contains_key(path)
            &&& delta.opencode_databases is Some && delta.opencode_databases.unwrap().contains_key(
                path,
            ) && !store.opencode_databases.contains_key(path) ==> after.opencode_databases[path]
                == delta.opencode_databases.unwrap()[path]
        }),
{
    law_file_rows_are_updated_throughout(
        delta.upserts[path],
        delta.upserts[path],
        path,
        path,
    );
    if let Some(id) = delta.next_doc_id {
        law_next_id_round_trip(id, decimal(id as nat));
    }
}

/// A plan holds what the change asks for and nothing else: the files to write and to delete, and
/// whether all are cleared first.
pub proof fn law_plans_hold_what_is_asked(
    delta: EncodedModel,
    files: Map<Seq<char>, PayloadModel>,
    databases: Map<Seq<char>, FieldsModel>,
    path: Seq<char>,
)
    ensures
        ({
            let writes = planned_writes(delta, files, databases);
            &&& writes.clear_files == delta.clear_files
            &&& writes.deletes.contains(path) == delta.deletes.contains(path)
            &&& writes.upserts.contains_key(path) == delta.upserts.contains_key(path)
            &&& writes.next_doc_id is Some == delta.next_doc_id is Some
            &&& writes.opencode_databases is Some == delta.opencode_databases is Some
            &&& writes_nothing(delta) ==> !delta.upserts.contains_key(path)
                && !delta.deletes.contains(path) && !delta.clear_files && delta.next_doc_id is None
                && delta.opencode_databases is None
            &&& rows_read(delta).contains(path) <==> delta.upserts.contains_key(path)
                && !delta.deletes.contains(path) && !delta.clear_files
        }),
        (forall|p: Seq<char>|
            !(#[trigger] delta.upserts.contains_key(p)) && !delta.deletes.contains(p))
            && !delta.clear_files && delta.next_doc_id is None && delta.opencode_databases is None
            ==> writes_nothing(delta),
{
    if forall|p: Seq<char>|
        !(#[trigger] delta.upserts.contains_key(p)) && !delta.deletes.contains(p) {
        assert(delta.upserts.dom() =~= Set::empty());
        assert forall|p: Seq<char>| !delta.deletes.contains(p) by {
            assert(!delta.upserts.contains_key(p));
        }
        assert(delta.deletes =~= Set::empty());
    }
}

/// A snapshot replaces everything: it writes every file of the state as it is, deletes every
/// stored file that the state does not have, and sets the next id and the databases.
pub proof fn law_snapshots_hold_the_whole_state(
    stored: Set<Seq<char>>,
    state: StateModel,
    path: Seq<char>,
)
    ensures
        ({
            let delta = snapshot_delta(stored, state);
            &&& delta.upserts.contains_key(path) == state.files.contains_key(path)
            &&& state.files.contains_key(path) ==> delta.upserts[path] == state.files[path]
            &&& delta.deletes.contains(path) <==> stored.contains(path)
                && !state.files.contains_key(path)
            &&& !delta.clear_files
            &&& delta.next_doc_id == Some(state.next_doc_id)
            &&& delta.opencode_databases == Some(state.opencode_databases)
            &&& !delta.is_empty()
        }),
{
}

/// A change is empty exactly if it asks for nothing.
pub proof fn law_empty_changes_ask_for_nothing(delta: DeltaModel, path: Seq<char>)
    ensures
        delta.is_empty() ==> !delta.upserts.contains_key(path) && !delta.deletes.contains(path)
            && !delta.clear_files && delta.next_doc_id is None && delta.opencode_databases is None,
        (delta.upserts.contains_key(path) || delta.deletes.contains(path) || delta.clear_files
            || delta.next_doc_id is Some || delta.opencode_databases is Some) ==> !delta.is_empty(),
        no_change().is_empty(),
{
    if delta.is_empty() {
        assert(!delta.upserts.dom().contains(path));
    }
    assert(no_change().upserts.dom() =~= Set::empty());
}

/// Importing takes everything over: the files, the databases and the next id as they are, and of
/// the other fields those that are not the document's own. Exporting gives back what the store
/// holds, exactly if its id can be read.
pub proof fn law_import_and_export_take_everything_over(
    document: DocumentModel,
    store: StoreModel,
    name: Seq<char>,
)
    ensures
        imported(document).files == document.files,
        document.opencode_databases is Some ==> imported(document).opencode_databases
            == document.opencode_databases.unwrap(),
        document.opencode_databases is None ==> imported(document).opencode_databases =~= Map::<
            Seq<char>,
            FieldsModel,
        >::empty(),
        stored_id(imported(document).next_doc_id) == Ok::<u64, NextIdError>(document.next_doc_id),
        imported(document).extras.contains_key(name) <==> document.extras.contains_key(name) && name
            != "next_doc_id"@ && name != "files"@ && name != "opencode_databases"@,
        imported(document).extras.contains_key(name) ==> imported(document).extras[name]
            == document.extras[name],
        exported(store) is Ok == stored_id(store.next_doc_id) is Ok,
        exported(store) matches Ok(found) ==> found.files == store.files && found.extras
            == store.extras && found.opencode_databases == Some(store.opencode_databases)
            && stored_id(store.next_doc_id) == Ok::<u64, NextIdError>(found.next_doc_id),
{
    law_next_id_round_trip(document.next_doc_id, decimal(document.next_doc_id as nat));
}

/// The files of a checkpoint are the database with its three companions, the lock, the document,
/// and the archives, each named after a hexadecimal digest. No other file is one.
pub proof fn law_artifacts_are_named(name: Seq<char>, digest: Seq<char>)
    ensures
        name == "checkpoints.sqlite"@ || name == "checkpoints.sqlite-wal"@ || name
            == "checkpoints.sqlite-shm"@ || name == "checkpoints.sqlite-journal"@ || name
            == ".checkpoints.lock"@ || name == "ingest.json"@ ==> is_artifact(name),
        name == "ingest.legacy-"@ + digest + ".json"@ ==> (is_artifact(name) <==> is_hex_digest(
            digest,
        )),
        is_artifact(name) && name != "checkpoints.sqlite"@ && name != "checkpoints.sqlite-wal"@
            && name != "checkpoints.sqlite-shm"@ && name != "checkpoints.sqlite-journal"@ && name
            != ".checkpoints.lock"@ && name != "ingest.json"@ ==> exists|found: Seq<char>|
            is_hex_digest(found) && name == #[trigger] ("ingest.legacy-"@ + found) + ".json"@,
{
    let prefix = "ingest.legacy-"@;
    let suffix = ".json"@;
    reveal_strlit("ingest.legacy-");
    reveal_strlit(".json");
    reveal_strlit("checkpoints.sqlite");
    reveal_strlit("checkpoints.sqlite-wal");
    reveal_strlit("checkpoints.sqlite-shm");
    reveal_strlit("checkpoints.sqlite-journal");
    reveal_strlit(".checkpoints.lock");
    reveal_strlit("ingest.json");
    if name == prefix + digest + suffix {
        assert(name.take(prefix.len() as int) =~= prefix);
        let rest = name.skip(prefix.len() as int);
        assert(rest =~= digest + suffix);
        assert(rest.skip(rest.len() - suffix.len()) =~= suffix);
        assert(rest.take(name.len() - prefix.len() - suffix.len()) =~= digest);
        assert(archive_digest(name) == Some(digest));
        assert(name[0] == 'i');
        assert(name[6] == '.' && name[7] == 'l');
        assert("ingest.json"@[7] == 'j');
        assert("checkpoints.sqlite"@[0] == 'c' && ".checkpoints.lock"@[0] == '.');
        assert("checkpoints.sqlite-wal"@[0] == 'c' && "checkpoints.sqlite-shm"@[0] == 'c');
        assert("checkpoints.sqlite-journal"@[0] == 'c');
    }
    if let Some(found) = archive_digest(name) {
        let rest = name.skip(prefix.len() as int);
        assert(name =~= prefix + rest);
        assert(rest =~= found + suffix);
        assert(name =~= prefix + found + suffix);
    }
}

} // verus!
