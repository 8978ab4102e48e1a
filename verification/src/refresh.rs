//! Preparing a refresh: which state survives, what is read, which records and vectors are
//! removed, and what an interrupted refresh left to do.

use vstd::prelude::*;
use vstd::utf8::encode_utf8;
use crate::exclude::{excluded_by, PathExcluder};
use crate::files::{FileChange, FileTask, TaskModel};
use crate::inventory::DirectoryInventory;
use crate::keys::{TextMap, TextSet};
use crate::model::Modeled;
use crate::opencode::{has_outcome, is_outcome, DatabaseOutcome, SessionScope};
use crate::outside::{decode_lossy, lossy_text};
use crate::path::{copy_bytes, FilePath};
use crate::sorted::{increasing, lemma_take_members, SortedSet};
use crate::state::{
    DatabaseModel, FileIdentity, FileModel, FileState, IdentityModel, IngestState,
    OpencodeDatabaseState, StateModel,
};
use crate::transcripts::{DiscoveryModel, TranscriptDiscovery};

verus! {

/// What an interrupted refresh recorded before it began to publish.
pub struct PendingIngest {
    pub source_paths: Vec<String>,
    pub session_scopes: Vec<SessionScope>,
    pub vector_delete_paths: Vec<String>,
    pub vector_publication: bool,
    /// Not recorded by older versions, which took every vector publication for an embedding.
    pub embedding_publication: Option<bool>,
}

/// The model of [`PendingIngest`].
#[verifier::ext_equal]
pub struct PendingModel {
    pub source_paths: Seq<Seq<char>>,
    pub session_scopes: Seq<(Seq<char>, Seq<char>)>,
    pub vector_delete_paths: Seq<Seq<char>>,
    pub vector_publication: bool,
    pub embedding_publication: Option<bool>,
}

impl DeepView for PendingIngest {
    type V = PendingModel;

    open spec fn deep_view(&self) -> PendingModel {
        PendingModel {
            source_paths: self.source_paths.deep_view(),
            session_scopes: self.session_scopes.deep_view(),
            vector_delete_paths: self.vector_delete_paths.deep_view(),
            vector_publication: self.vector_publication,
            embedding_publication: self.embedding_publication,
        }
    }
}

/// A set of changed paths may stand for a full scan.
pub open spec fn changes_suffice(
    reported: bool,
    recovering: bool,
    empty_index_rebuild: bool,
    state_exists: bool,
) -> bool {
    reported && !recovering && !empty_index_rebuild && state_exists
}

/// Whether a set of changed paths may stand for a full scan: only where changes were reported,
/// nothing was interrupted, the index is not rebuilt, and there is a state to start from.
pub fn trusts_changes(
    reported: bool,
    recovering: bool,
    empty_index_rebuild: bool,
    state_exists: bool,
) -> (result: bool)
    ensures
        result == changes_suffice(reported, recovering, empty_index_rebuild, state_exists),
        result == (reported && !recovering && !empty_index_rebuild && state_exists),
{
    reported && !recovering && !empty_index_rebuild && state_exists
}

/// What is known when a refresh starts.
#[derive(Clone, Copy, Debug, PartialEq, Eq, Structural)]
pub struct RefreshStart {
    /// Changed paths were reported.
    pub reported: bool,
    /// The index is empty and rebuilt.
    pub empty_index_rebuild: bool,
    /// There is a state to start from.
    pub state_exists: bool,
    /// The reported paths stand for files and databases that are known.
    pub selected: bool,
}

/// A refresh looks at everything, unless reported changes can be trusted and were resolved.
pub open spec fn scans_everything(start: RefreshStart, recovering: bool) -> bool {
    !(start.reported && !recovering && !start.empty_index_rebuild && start.state_exists
        && start.selected)
}

/// What a refresh does besides looking at what was selected.
#[derive(Clone, Copy, Debug, PartialEq, Eq, Structural)]
pub struct ScanPlan {
    /// Every source is listed, not only the selected files.
    pub full_scan: bool,
    /// Excluded files lose their state.
    pub drops_excluded: bool,
    /// Single-file sessions are listed, and lose their state where a database holds them.
    pub lists_sessions: bool,
    /// Known files are looked up, and lose their state where they are gone.
    pub probes_files: bool,
    /// Indexed records are searched for excluded sources.
    pub checks_index: bool,
    /// The scan is recorded for the next refresh.
    pub records_scan: bool,
}

/// What a refresh does: everything that goes beyond the selection belongs to a full scan.
pub open spec fn planned_scan(
    start: RefreshStart,
    recovering: bool,
    excluding: bool,
) -> ScanPlan {
    let full = scans_everything(start, recovering);
    ScanPlan {
        full_scan: full,
        drops_excluded: full,
        lists_sessions: full,
        probes_files: full,
        checks_index: full && excluding,
        records_scan: full,
    }
}

/// Plans what a refresh does. `recovering` tells whether an earlier one was interrupted, and
/// `excluding` whether there are exclude patterns.
pub fn plan_scan(start: &RefreshStart, recovering: bool, excluding: bool) -> (plan: ScanPlan)
    ensures
        plan == planned_scan(*start, recovering, excluding),
{
    let trusted = trusts_changes(
        start.reported,
        recovering,
        start.empty_index_rebuild,
        start.state_exists,
    );
    let full = !(trusted && start.selected);
    ScanPlan {
        full_scan: full,
        drops_excluded: full,
        lists_sessions: full,
        probes_files: full,
        checks_index: full && excluding,
        records_scan: full,
    }
}

/// The members of a set where a step runs, and none where it does not.
pub open spec fn where_run(runs: bool, keys: Set<Seq<char>>) -> Set<Seq<char>> {
    if runs {
        keys
    } else {
        Set::empty()
    }
}

/// The file of this key is excluded, given the canonical forms that could be found.
pub open spec fn key_excluded(
    patterns: Seq<Seq<char>>,
    canonical: Map<Seq<char>, Seq<u8>>,
    key: Seq<char>,
) -> bool {
    excluded_by(
        patterns,
        encode_utf8(key),
        if canonical.contains_key(key) {
            Some(canonical[key])
        } else {
            None
        },
    )
}

/// Whether the file of this key is excluded.
pub fn is_key_excluded(
    excluder: &PathExcluder,
    canonical: &TextMap<Vec<u8>>,
    key: &String,
) -> (result: bool)
    ensures
        result == key_excluded(excluder.patterns(), canonical.deep_view(), key@),
{
    broadcast use crate::model::lemma_bytes_model;

    let path = FilePath::new(copy_bytes(key.as_str().as_bytes()));
    match canonical.get(key) {
        Some(resolved) => {
            let resolved = FilePath::new(copy_bytes(resolved.as_slice()));
            excluder.is_excluded(&path, Some(&resolved))
        },
        None => excluder.is_excluded(&path, None),
    }
}

/// The keys of the files that are excluded now.
pub open spec fn excluded_keys(
    files: Map<Seq<char>, FileModel>,
    patterns: Seq<Seq<char>>,
    canonical: Map<Seq<char>, Seq<u8>>,
) -> Set<Seq<char>> {
    Set::new(|key: Seq<char>| files.contains_key(key) && key_excluded(patterns, canonical, key))
}

/// Drops the state of every file that is excluded now, and lists those files in order. A scan
/// that is not full drops none.
pub fn drop_excluded(
    files: &mut TextMap<FileState>,
    plan: &ScanPlan,
    excluder: &PathExcluder,
    canonical: &TextMap<Vec<u8>>,
) -> (dropped: Vec<String>)
    ensures
        increasing::<String>(dropped.deep_view()),
        dropped.deep_view().to_set() == where_run(
            plan.drops_excluded,
            excluded_keys(old(files).deep_view(), excluder.patterns(), canonical.deep_view()),
        ),
        final(files).deep_view() == old(files).deep_view().remove_keys(
            dropped.deep_view().to_set(),
        ),
{
    if !plan.drops_excluded {
        let none: Vec<String> = Vec::new();
        assert(none.deep_view().to_set() =~= Set::empty());
        assert(files.deep_view().remove_keys(Set::empty()) =~= files.deep_view());
        return none;
    }
    let ghost model = files.deep_view();
    let ghost keys = files.keys();
    let ghost patterns = excluder.patterns();
    let ghost resolved = canonical.deep_view();
    let ghost wanted = excluded_keys(model, patterns, resolved);
    let mut dropped: TextSet = SortedSet::new();
    let count = files.len();
    let mut i: usize = 0;
    assert(dropped.deep_view() =~= wanted.intersect(keys.take(0).to_set()));
    while i < count
        invariant
            i <= count,
            count == keys.len(),
            keys == files.keys(),
            model == files.deep_view(),
            model.dom() == keys.to_set(),
            patterns == excluder.patterns(),
            resolved == canonical.deep_view(),
            wanted == excluded_keys(model, patterns, resolved),
            dropped.deep_view() == wanted.intersect(keys.take(i as int).to_set()),
        decreases count - i,
    {
        let key = files.key_at(i);
        if is_key_excluded(excluder, canonical, key) {
            dropped.insert(key.duplicate());
        }
        proof {
            lemma_take_members(keys, i as int);
            assert(dropped.deep_view() =~= wanted.intersect(keys.take(i + 1).to_set()));
        }
        i += 1;
    }
    assert(keys.take(i as int) =~= keys);
    assert(wanted.intersect(keys.to_set()) =~= wanted);
    let list = dropped.list();
    files.remove_all(&list);
    list
}

/// What looking a file up showed.
#[derive(Clone, Copy, Debug, PartialEq, Eq, Structural)]
pub enum FileProbe {
    /// There is no such file, and its container is a directory that can be read.
    Removed,
    /// There is no such file, but its container cannot be looked at either.
    Unreachable,
    /// There is something, or the lookup failed in another way.
    Other,
}

impl DeepView for FileProbe {
    type V = FileProbe;

    open spec fn deep_view(&self) -> FileProbe {
        *self
    }
}

impl Modeled for FileProbe {
    fn duplicate(&self) -> (copy: Self) {
        *self
    }

    fn same(&self, other: &Self) -> (equal: bool) {
        *self == *other
    }
}

/// What a lookup amounts to.
pub open spec fn probe_of(not_found: bool, container_readable: bool) -> FileProbe {
    if !not_found {
        FileProbe::Other
    } else if container_readable {
        FileProbe::Removed
    } else {
        FileProbe::Unreachable
    }
}

/// What a lookup amounts to: `not_found` for the file itself, `container_readable` for the
/// directory it should lie in.
pub fn probed(not_found: bool, container_readable: bool) -> (probe: FileProbe)
    ensures
        probe == probe_of(not_found, container_readable),
        probe == (if !not_found {
            FileProbe::Other
        } else if container_readable {
            FileProbe::Removed
        } else {
            FileProbe::Unreachable
        }),
{
    if !not_found {
        FileProbe::Other
    } else if container_readable {
        FileProbe::Removed
    } else {
        FileProbe::Unreachable
    }
}

/// The keys of the files whose removal is confirmed.
pub open spec fn removed_keys(
    files: Map<Seq<char>, FileModel>,
    probes: Map<Seq<char>, FileProbe>,
) -> Set<Seq<char>> {
    Set::new(
        |key: Seq<char>|
            files.contains_key(key) && probes.contains_key(key) && probes[key]
                == FileProbe::Removed,
    )
}

/// Drops the state of every file whose removal is confirmed, and lists those files in order. A
/// scan that is not full drops none.
pub fn drop_removed(
    files: &mut TextMap<FileState>,
    plan: &ScanPlan,
    probes: &TextMap<FileProbe>,
) -> (dropped: Vec<String>)
    ensures
        increasing::<String>(dropped.deep_view()),
        dropped.deep_view().to_set() == where_run(
            plan.probes_files,
            removed_keys(old(files).deep_view(), probes.deep_view()),
        ),
        final(files).deep_view() == old(files).deep_view().remove_keys(
            dropped.deep_view().to_set(),
        ),
{
    if !plan.probes_files {
        let none: Vec<String> = Vec::new();
        assert(none.deep_view().to_set() =~= Set::empty());
        assert(files.deep_view().remove_keys(Set::empty()) =~= files.deep_view());
        return none;
    }
    let ghost model = files.deep_view();
    let ghost keys = files.keys();
    let ghost seen = probes.deep_view();
    let ghost wanted = removed_keys(model, seen);
    let mut dropped: TextSet = SortedSet::new();
    let count = files.len();
    let mut i: usize = 0;
    assert(dropped.deep_view() =~= wanted.intersect(keys.take(0).to_set()));
    while i < count
        invariant
            i <= count,
            count == keys.len(),
            keys == files.keys(),
            model == files.deep_view(),
            model.dom() == keys.to_set(),
            seen == probes.deep_view(),
            wanted == removed_keys(model, seen),
            dropped.deep_view() == wanted.intersect(keys.take(i as int).to_set()),
        decreases count - i,
    {
        let key = files.key_at(i);
        let removed = match probes.get(key) {
            Some(probe) => *probe == FileProbe::Removed,
            None => false,
        };
        if removed {
            dropped.insert(key.duplicate());
        }
        proof {
            lemma_take_members(keys, i as int);
            assert(dropped.deep_view() =~= wanted.intersect(keys.take(i + 1).to_set()));
        }
        i += 1;
    }
    assert(keys.take(i as int) =~= keys);
    assert(wanted.intersect(keys.to_set()) =~= wanted);
    let list = dropped.list();
    files.remove_all(&list);
    list
}

/// The sources of these records that are excluded now, sorted, each once. A scan that is not
/// full finds none.
pub fn excluded_sources(
    sources: &Vec<String>,
    plan: &ScanPlan,
    excluder: &PathExcluder,
    canonical: &TextMap<Vec<u8>>,
) -> (excluded: Vec<String>)
    ensures
        increasing::<String>(excluded.deep_view()),
        excluded.deep_view().to_set() == where_run(
            plan.checks_index,
            sources.deep_view().to_set().filter(
                |source: Seq<char>|
                    key_excluded(excluder.patterns(), canonical.deep_view(), source),
            ),
        ),
{
    if !plan.checks_index {
        let none: Vec<String> = Vec::new();
        assert(none.deep_view().to_set() =~= Set::empty());
        return none;
    }
    let ghost models = sources.deep_view();
    let ghost patterns = excluder.patterns();
    let ghost resolved = canonical.deep_view();
    let ghost hit = |source: Seq<char>| key_excluded(patterns, resolved, source);
    let mut excluded: TextSet = SortedSet::new();
    let mut i: usize = 0;
    assert(excluded.deep_view() =~= models.take(0).to_set().filter(hit));
    while i < sources.len()
        invariant
            i <= sources@.len(),
            models == sources.deep_view(),
            patterns == excluder.patterns(),
            resolved == canonical.deep_view(),
            hit == (|source: Seq<char>| key_excluded(patterns, resolved, source)),
            excluded.deep_view() == models.take(i as int).to_set().filter(hit),
        decreases sources@.len() - i,
    {
        let source = &sources[i];
        assert(models[i as int] == source@);
        if is_key_excluded(excluder, canonical, source) {
            excluded.insert(source.duplicate());
        }
        proof {
            lemma_take_members(models, i as int);
            assert(excluded.deep_view() =~= models.take(i + 1).to_set().filter(hit));
        }
        i += 1;
    }
    assert(models.take(i as int) =~= models);
    excluded.list()
}

/// The keys of the tasks that replace what was recorded of their files.
pub open spec fn replaced_keys(tasks: Seq<TaskModel>) -> Set<Seq<char>> {
    Set::new(
        |key: Seq<char>|
            exists|i: int|
                0 <= i < tasks.len() && (#[trigger] tasks[i]).change.replaces() && lossy_text(
                    tasks[i].path,
                ) == key,
    )
}

fn replaced_files(tasks: &Vec<FileTask>) -> (keys: TextSet)
    ensures
        keys.deep_view() == replaced_keys(tasks.deep_view()),
{
    let ghost models = tasks.deep_view();
    let mut keys: TextSet = SortedSet::new();
    let mut i: usize = 0;
    assert(keys.deep_view() =~= replaced_keys(models.take(0)));
    while i < tasks.len()
        invariant
            i <= tasks@.len(),
            models == tasks.deep_view(),
            keys.deep_view() == replaced_keys(models.take(i as int)),
        decreases tasks@.len() - i,
    {
        let task = &tasks[i];
        assert(models[i as int] == task.deep_view());
        if task.delete_first() {
            keys.insert(decode_lossy(task.path.bytes().as_slice()));
        }
        proof {
            let shorter = models.take(i as int);
            let longer = models.take(i + 1);
            assert(longer[i as int] == models[i as int]);
            assert forall|k: int| 0 <= k < i implies longer[k] == #[trigger] shorter[k] by {}
            assert forall|key: Seq<char>| keys.deep_view().contains(key) == replaced_keys(
                longer,
            ).contains(key) by {
                if replaced_keys(shorter).contains(key) {
                    let k = choose|k: int|
                        0 <= k < shorter.len() && (#[trigger] shorter[k]).change.replaces()
                            && lossy_text(shorter[k].path) == key;
                    assert(longer[k] == shorter[k]);
                }
                if replaced_keys(longer).contains(key) {
                    let k = choose|k: int|
                        0 <= k < longer.len() && (#[trigger] longer[k]).change.replaces()
                            && lossy_text(longer[k].path) == key;
                    if k < i {
                        assert(longer[k] == shorter[k]);
                    }
                }
            }
            assert(keys.deep_view() =~= replaced_keys(longer));
        }
        i += 1;
    }
    assert(models.take(i as int) =~= models);
    keys
}

/// Some task reads a source again that was interrupted, and whose vectors are to stay.
pub open spec fn replays_source(pending: PendingModel, tasks: Seq<TaskModel>) -> bool {
    exists|i: int|
        0 <= i < tasks.len() && pending.source_paths.contains(
            lossy_text((#[trigger] tasks[i]).path),
        ) && !pending.vector_delete_paths.contains(lossy_text(tasks[i].path))
}

/// The embeddings of an interrupted refresh have to be made again: it published embeddings, or
/// it published vectors and one of its sources is read again while its vectors stay.
pub open spec fn recovers_embeddings(
    pending: PendingModel,
    vectors_exist: bool,
    tasks: Seq<TaskModel>,
) -> bool {
    ||| match pending.embedding_publication {
        Some(published) => published,
        None => pending.vector_publication,
    }
    ||| pending.vector_publication && vectors_exist && replays_source(pending, tasks)
}

/// The vectors of an interrupted refresh have to be cleaned up: a database of one of its
/// sessions was read, or one of its sources is a database.
pub open spec fn recovers_cleanup(
    pending: PendingModel,
    pending_databases: Set<Seq<char>>,
    outcomes: Map<Seq<char>, DatabaseOutcome>,
) -> bool {
    ||| exists|i: int|
        0 <= i < pending.session_scopes.len() && has_outcome(
            outcomes,
            (#[trigger] pending.session_scopes[i]).0,
            DatabaseOutcome::Ready,
        )
    ||| exists|i: int|
        0 <= i < pending.source_paths.len() && pending_databases.contains(
            #[trigger] pending.source_paths[i],
        )
}

fn contains_text(list: &Vec<String>, text: &String) -> (found: bool)
    ensures
        found == list.deep_view().contains(text@),
{
    let ghost models = list.deep_view();
    let mut i: usize = 0;
    while i < list.len()
        invariant
            i <= list@.len(),
            models == list.deep_view(),
            forall|k: int| 0 <= k < i ==> #[trigger] models[k] != text@,
        decreases list@.len() - i,
    {
        assert(models[i as int] == list@[i as int].deep_view());
        if list[i].same(text) {
            return true;
        }
        i += 1;
    }
    false
}

fn is_replayed(pending: &PendingIngest, tasks: &Vec<FileTask>) -> (result: bool)
    ensures
        result == replays_source(pending.deep_view(), tasks.deep_view()),
{
    let ghost model = pending.deep_view();
    let ghost models = tasks.deep_view();
    let mut i: usize = 0;
    while i < tasks.len()
        invariant
            i <= tasks@.len(),
            model == pending.deep_view(),
            models == tasks.deep_view(),
            forall|k: int|
                0 <= k < i ==> !(model.source_paths.contains(
                    lossy_text((#[trigger] models[k]).path),
                ) && !model.vector_delete_paths.contains(lossy_text(models[k].path))),
        decreases tasks@.len() - i,
    {
        assert(models[i as int] == tasks@[i as int].deep_view());
        let key = decode_lossy(tasks[i].path.bytes().as_slice());
        if contains_text(&pending.source_paths, &key) && !contains_text(
            &pending.vector_delete_paths,
            &key,
        ) {
            return true;
        }
        i += 1;
    }
    false
}

fn recovers_ready_scope(
    pending: &PendingIngest,
    outcomes: &TextMap<DatabaseOutcome>,
) -> (result: bool)
    ensures
        result == (exists|i: int|
            0 <= i < pending.deep_view().session_scopes.len() && has_outcome(
                outcomes.deep_view(),
                (#[trigger] pending.deep_view().session_scopes[i]).0,
                DatabaseOutcome::Ready,
            )),
{
    let ghost scopes = pending.deep_view().session_scopes;
    let mut i: usize = 0;
    while i < pending.session_scopes.len()
        invariant
            i <= pending.session_scopes@.len(),
            scopes == pending.deep_view().session_scopes,
            forall|k: int|
                0 <= k < i ==> !has_outcome(
                    outcomes.deep_view(),
                    (#[trigger] scopes[k]).0,
                    DatabaseOutcome::Ready,
                ),
        decreases pending.session_scopes@.len() - i,
    {
        let scope = &pending.session_scopes[i];
        assert(scopes[i as int] == scope.deep_view());
        if is_outcome(outcomes, &scope.source_path, DatabaseOutcome::Ready) {
            return true;
        }
        i += 1;
    }
    false
}

/// The members of the list that are in the set.
fn shared(list: &Vec<String>, set: &TextSet) -> (members: TextSet)
    ensures
        members.deep_view() == list.deep_view().to_set().intersect(set.deep_view()),
{
    let ghost models = list.deep_view();
    let mut members: TextSet = SortedSet::new();
    let mut i: usize = 0;
    assert(members.deep_view() =~= models.take(0).to_set().intersect(set.deep_view()));
    while i < list.len()
        invariant
            i <= list@.len(),
            models == list.deep_view(),
            members.deep_view() == models.take(i as int).to_set().intersect(set.deep_view()),
        decreases list@.len() - i,
    {
        assert(models[i as int] == list@[i as int].deep_view());
        if set.contains(&list[i]) {
            members.insert(list[i].duplicate());
        }
        proof {
            lemma_take_members(models, i as int);
            assert(members.deep_view() =~= models.take(i + 1).to_set().intersect(set.deep_view()));
        }
        i += 1;
    }
    assert(models.take(i as int) =~= models);
    members
}

/// The files with the identities of the first `n` unchanged files brought up to date.
pub open spec fn with_identities(
    files: Map<Seq<char>, FileModel>,
    unchanged: Seq<(Seq<char>, IdentityModel)>,
    n: int,
) -> Map<Seq<char>, FileModel>
    decreases n,
{
    if n <= 0 {
        files
    } else {
        let before = with_identities(files, unchanged, n - 1);
        let (key, identity) = unchanged[n - 1];
        if before.contains_key(key) {
            before.insert(key, FileModel { identity, ..before[key] })
        } else {
            before
        }
    }
}

/// One of the first `n` unchanged files has another identity than its state says.
pub open spec fn identities_differ(
    files: Map<Seq<char>, FileModel>,
    unchanged: Seq<(Seq<char>, IdentityModel)>,
    n: int,
) -> bool
    decreases n,
{
    n > 0 && {
        let before = with_identities(files, unchanged, n - 1);
        let (key, identity) = unchanged[n - 1];
        ||| identities_differ(files, unchanged, n - 1)
        ||| before.contains_key(key) && before[key].identity != identity
    }
}

/// Brings the identities of unchanged files up to date, and tells whether any of them changed.
pub fn update_identities(
    files: &mut TextMap<FileState>,
    unchanged: &Vec<(String, FileIdentity)>,
) -> (changed: bool)
    ensures
        final(files).deep_view() == with_identities(
            old(files).deep_view(),
            unchanged.deep_view(),
            unchanged@.len() as int,
        ),
        changed == identities_differ(
            old(files).deep_view(),
            unchanged.deep_view(),
            unchanged@.len() as int,
        ),
{
    let ghost before = files.deep_view();
    let ghost models = unchanged.deep_view();
    let mut changed = false;
    let mut i: usize = 0;
    while i < unchanged.len()
        invariant
            i <= unchanged@.len(),
            models == unchanged.deep_view(),
            files.deep_view() == with_identities(before, models, i as int),
            changed == identities_differ(before, models, i as int),
        decreases unchanged@.len() - i,
    {
        let (key, identity) = &unchanged[i];
        let ghost now = files.deep_view();
        assert(models[i as int] == (key@, identity.deep_view()));
        let differs = match files.get(key) {
            Some(state) => !state.identity.same(identity),
            None => false,
        };
        if differs {
            let taken = files.remove(key);
            if let Some(mut state) = taken {
                let ghost model = state.deep_view();
                state.identity = identity.duplicate();
                assert(state.deep_view() == FileModel {
                    identity: identity.deep_view(),
                    ..model
                });
                files.insert(key.duplicate(), state);
                assert(files.deep_view() =~= with_identities(before, models, i + 1));
            }
            changed = true;
        } else {
            proof {
                if now.contains_key(key@) {
                    assert(FileModel { identity: identity.deep_view(), ..now[key@] } == now[key@]);
                    assert(now.insert(key@, now[key@]) =~= now);
                }
            }
        }
        i += 1;
    }
    changed
}

/// What the discovery of a refresh found, after the state was rid of excluded, superseded and
/// removed files.
pub struct Discovered {
    pub start: RefreshStart,
    /// The listings to reuse next time, if this scan leaves any.
    pub inventory: Option<DirectoryInventory>,
    pub pending: Option<PendingIngest>,
    /// The interrupted sources that are databases.
    pub pending_databases: TextSet,
    pub transcripts: TranscriptDiscovery,
    /// The databases that were scanned and skipped, and their size.
    pub databases: (usize, usize, u64),
    pub legacy: TranscriptDiscovery,
    pub outcomes: TextMap<DatabaseOutcome>,
    pub database_states: TextMap<OpencodeDatabaseState>,
    pub database_deletes: Vec<String>,
    pub legacy_deletes: Vec<String>,
    pub removed: Vec<String>,
    pub excluded_state: Vec<String>,
    pub excluded_index: Vec<String>,
    pub vectors_exist: bool,
}

/// The model of [`Discovered`].
#[verifier::ext_equal]
pub struct DiscoveredModel {
    pub pending: Option<PendingModel>,
    pub pending_databases: Set<Seq<char>>,
    pub transcripts: DiscoveryModel,
    pub databases: (nat, nat, nat),
    pub legacy: DiscoveryModel,
    pub outcomes: Map<Seq<char>, DatabaseOutcome>,
    pub database_states: Map<Seq<char>, DatabaseModel>,
    pub database_deletes: Seq<Seq<char>>,
    pub legacy_deletes: Seq<Seq<char>>,
    pub removed: Seq<Seq<char>>,
    pub excluded_state: Seq<Seq<char>>,
    pub excluded_index: Seq<Seq<char>>,
    pub vectors_exist: bool,
}

impl DeepView for Discovered {
    type V = DiscoveredModel;

    open spec fn deep_view(&self) -> DiscoveredModel {
        DiscoveredModel {
            pending: self.pending.deep_view(),
            pending_databases: self.pending_databases.deep_view(),
            transcripts: self.transcripts.deep_view(),
            databases: (
                self.databases.0 as nat,
                self.databases.1 as nat,
                self.databases.2 as nat,
            ),
            legacy: self.legacy.deep_view(),
            outcomes: self.outcomes.deep_view(),
            database_states: self.database_states.deep_view(),
            database_deletes: self.database_deletes.deep_view(),
            legacy_deletes: self.legacy_deletes.deep_view(),
            removed: self.removed.deep_view(),
            excluded_state: self.excluded_state.deep_view(),
            excluded_index: self.excluded_index.deep_view(),
            vectors_exist: self.vectors_exist,
        }
    }
}

impl DiscoveredModel {
    /// Everything that has to be read.
    pub open spec fn tasks(self) -> Seq<TaskModel> {
        self.transcripts.tasks + self.legacy.tasks
    }

    /// Every file that stayed the same.
    pub open spec fn unchanged(self) -> Seq<(Seq<char>, IdentityModel)> {
        self.transcripts.unchanged_identities + self.legacy.unchanged_identities
    }

    pub open spec fn files_scanned(self) -> nat {
        self.transcripts.files_scanned + self.databases.0 + self.legacy.files_scanned
    }

    pub open spec fn files_skipped(self) -> nat {
        self.transcripts.files_skipped + self.databases.1 + self.legacy.files_skipped
            + self.excluded_state.len()
    }

    pub open spec fn total_bytes(self) -> nat {
        self.transcripts.total_bytes + self.databases.2 + self.legacy.total_bytes
    }

    /// The totals fit into machine integers.
    pub open spec fn fits(self) -> bool {
        &&& self.files_scanned() <= usize::MAX
        &&& self.files_skipped() <= usize::MAX
        &&& self.total_bytes() <= u64::MAX
    }

    /// The sources that lose their records in this refresh.
    pub open spec fn removals(self) -> Set<Seq<char>> {
        self.database_deletes.to_set().union(self.legacy_deletes.to_set()).union(
            self.removed.to_set(),
        ).union(self.excluded_state.to_set()).union(self.excluded_index.to_set()).union(
            replaced_keys(self.tasks()),
        )
    }

    /// The sources whose records are removed: those of this refresh, and every source of an
    /// interrupted one.
    pub open spec fn record_deletes(self) -> Set<Seq<char>> {
        match self.pending {
            Some(pending) => pending.source_paths.to_set().union(self.removals()),
            None => self.removals(),
        }
    }

    /// The sources whose vectors are removed: those of this refresh, and of an interrupted one
    /// those that it named and its databases.
    pub open spec fn vector_deletes(self) -> Set<Seq<char>> {
        match self.pending {
            Some(pending) => pending.vector_delete_paths.to_set().union(
                pending.source_paths.to_set().intersect(self.pending_databases),
            ).union(self.removals()),
            None => self.removals(),
        }
    }

    /// The database states after the refresh.
    pub open spec fn installed(
        self,
        previous: Map<Seq<char>, DatabaseModel>,
    ) -> Map<Seq<char>, DatabaseModel> {
        previous.remove_keys(self.database_deletes.to_set()).union_prefer_right(
            self.database_states,
        )
    }
}

/// What a full scan leaves for the next one.
pub struct ScanRecord {
    pub directory_inventory: Option<DirectoryInventory>,
}

/// A refresh that is ready to run.
pub struct PreparedRefresh {
    pub full_scan: bool,
    pub recovering_pending_ingest: bool,
    pub empty_index_rebuild: bool,
    /// Only a full scan is recorded.
    pub scan: Option<ScanRecord>,
    pub state: IngestState,
    pub tasks: Vec<FileTask>,
    pub files_scanned: usize,
    pub files_skipped: usize,
    pub total_bytes: u64,
    pub session_ids: TextSet,
    pub recover_embeddings: bool,
    pub reconcile_pending_vector_ids: bool,
    pub recover_vector_cleanup: bool,
    /// Sorted, each once.
    pub delete_paths: Vec<String>,
    pub vector_delete_paths: TextSet,
    pub installed_opencode_states: TextMap<OpencodeDatabaseState>,
    pub opencode_database_state_changed: bool,
    pub identities_changed: bool,
}

/// Whether the totals of the discovery fit into machine integers.
pub fn totals_fit(found: &Discovered) -> (result: bool)
    ensures
        result == found.deep_view().fits(),
{
    let scanned = match found.transcripts.files_scanned.checked_add(found.databases.0) {
        Some(sum) => sum.checked_add(found.legacy.files_scanned),
        None => None,
    };
    let skipped = match found.transcripts.files_skipped.checked_add(found.databases.1) {
        Some(sum) => match sum.checked_add(found.legacy.files_skipped) {
            Some(sum) => sum.checked_add(found.excluded_state.len()),
            None => None,
        },
        None => None,
    };
    let bytes = match found.transcripts.total_bytes.checked_add(found.databases.2) {
        Some(sum) => sum.checked_add(found.legacy.total_bytes),
        None => None,
    };
    scanned.is_some() && skipped.is_some() && bytes.is_some()
}

/// Puts together what a refresh has to do.
pub fn prepare_refresh(state: IngestState, found: Discovered) -> (prepared: PreparedRefresh)
    requires
        found.deep_view().fits(),
    ensures
        ({
            let model = found.deep_view();
            let before = state.deep_view();
            &&& prepared.full_scan == scans_everything(found.start, model.pending is Some)
            &&& prepared.recovering_pending_ingest == model.pending is Some
            &&& prepared.empty_index_rebuild == found.start.empty_index_rebuild
            &&& prepared.scan == (if prepared.full_scan {
                Some(ScanRecord { directory_inventory: found.inventory })
            } else {
                None
            })
            &&& prepared.state.deep_view() == (StateModel {
                files: with_identities(
                    before.files,
                    model.unchanged(),
                    model.unchanged().len() as int,
                ),
                ..before
            })
            &&& prepared.identities_changed == identities_differ(
                before.files,
                model.unchanged(),
                model.unchanged().len() as int,
            )
            &&& prepared.tasks.deep_view() == model.tasks()
            &&& prepared.files_scanned == model.files_scanned()
            &&& prepared.files_skipped == model.files_skipped()
            &&& prepared.total_bytes == model.total_bytes()
            &&& prepared.session_ids.deep_view() == model.transcripts.session_ids
            &&& prepared.recover_embeddings == (model.pending matches Some(pending)
                && recovers_embeddings(pending, model.vectors_exist, model.tasks()))
            &&& prepared.reconcile_pending_vector_ids == (model.pending matches Some(pending)
                && pending.vector_publication)
            &&& prepared.recover_vector_cleanup == (model.pending matches Some(pending)
                && recovers_cleanup(pending, model.pending_databases, model.outcomes))
            &&& increasing::<String>(prepared.delete_paths.deep_view())
            &&& prepared.delete_paths.deep_view().to_set() == model.record_deletes()
            &&& prepared.vector_delete_paths.deep_view() == model.vector_deletes()
            &&& prepared.installed_opencode_states.deep_view() == model.installed(
                before.opencode_databases,
            )
            &&& prepared.opencode_database_state_changed == (model.installed(
                before.opencode_databases,
            ) != before.opencode_databases)
        }),
{
    let ghost model = found.deep_view();
    let ghost before = state.deep_view();
    let Discovered {
        start,
        inventory,
        pending,
        pending_databases,
        transcripts,
        databases,
        legacy,
        outcomes,
        database_states,
        database_deletes,
        legacy_deletes,
        removed,
        excluded_state,
        excluded_index,
        vectors_exist,
    } = found;
    let files_scanned = transcripts.files_scanned + databases.0 + legacy.files_scanned;
    let files_skipped = transcripts.files_skipped + databases.1 + legacy.files_skipped
        + excluded_state.len();
    let total_bytes = transcripts.total_bytes + databases.2 + legacy.total_bytes;
    let mut tasks = transcripts.tasks;
    let mut more_tasks = legacy.tasks;
    tasks.append(&mut more_tasks);
    assert(tasks.deep_view() =~= model.tasks());
    let mut unchanged = transcripts.unchanged_identities;
    let mut more_unchanged = legacy.unchanged_identities;
    unchanged.append(&mut more_unchanged);
    assert(unchanged.deep_view() =~= model.unchanged());

    let mut removals: TextSet = SortedSet::from_list(&database_deletes);
    removals.add_all(&legacy_deletes);
    removals.add_all(&removed);
    removals.add_all(&excluded_state);
    removals.add_all(&excluded_index);
    removals.add_set(&replaced_files(&tasks));
    assert(removals.deep_view() == model.removals());
    let mut deletes: TextSet = SortedSet::new();
    let mut vector_delete_paths: TextSet = SortedSet::new();
    let mut recover_embeddings = false;
    let mut reconcile_pending_vector_ids = false;
    let mut recover_vector_cleanup = false;
    match &pending {
        Some(pending) => {
            let published = match pending.embedding_publication {
                Some(published) => published,
                None => pending.vector_publication,
            };
            recover_embeddings = published || (pending.vector_publication && vectors_exist
                && is_replayed(pending, &tasks));
            reconcile_pending_vector_ids = pending.vector_publication;
            let named = shared(&pending.source_paths, &pending_databases);
            let named_count = named.len();
            recover_vector_cleanup = recovers_ready_scope(pending, &outcomes) || named_count > 0;
            proof {
                let sources = pending.source_paths.deep_view();
                let both = sources.to_set().intersect(pending_databases.deep_view());
                if named_count > 0 {
                    let member = named.items()[0];
                    assert(named.items().contains(member));
                    assert(both.contains(member));
                    assert(sources.contains(member));
                }
                if exists|i: int|
                    0 <= i < sources.len() && pending_databases.deep_view().contains(
                        #[trigger] sources[i],
                    ) {
                    let i = choose|i: int|
                        0 <= i < sources.len() && pending_databases.deep_view().contains(
                            #[trigger] sources[i],
                        );
                    assert(sources.contains(sources[i]));
                    assert(both.contains(sources[i]));
                    assert(named.items().contains(sources[i]));
                }
            }
            deletes.add_all(&pending.source_paths);
            vector_delete_paths.add_all(&pending.vector_delete_paths);
            vector_delete_paths.add_set(&named);
        },
        None => {},
    }
    deletes.add_set(&removals);
    vector_delete_paths.add_set(&removals);
    assert(deletes.deep_view() =~= model.record_deletes());
    assert(vector_delete_paths.deep_view() =~= model.vector_deletes());

    let IngestState { next_doc_id, mut files, opencode_databases } = state;
    let mut installed = opencode_databases.duplicate();
    installed.remove_all(&database_deletes);
    installed.extend(&database_states);
    let opencode_database_state_changed = !installed.same(&opencode_databases);
    let identities_changed = update_identities(&mut files, &unchanged);
    let recovering_pending_ingest = pending.is_some();
    let plan = plan_scan(&start, recovering_pending_ingest, false);
    let scan = if plan.records_scan {
        Some(ScanRecord { directory_inventory: inventory })
    } else {
        None
    };
    PreparedRefresh {
        full_scan: plan.full_scan,
        recovering_pending_ingest,
        empty_index_rebuild: start.empty_index_rebuild,
        scan,
        state: IngestState { next_doc_id, files, opencode_databases },
        tasks,
        files_scanned,
        files_skipped,
        total_bytes,
        session_ids: transcripts.session_ids,
        recover_embeddings,
        reconcile_pending_vector_ids,
        recover_vector_cleanup,
        delete_paths: deletes.list(),
        vector_delete_paths,
        installed_opencode_states: installed,
        opencode_database_state_changed,
        identities_changed,
    }
}

/// Whatever this refresh removes the records of loses its vectors too, so that nothing that
/// left the index goes on matching a search.
pub proof fn law_removed_records_lose_their_vectors(found: DiscoveredModel, key: Seq<char>)
    requires
        found.removals().contains(key),
    ensures
        found.record_deletes().contains(key),
        found.vector_deletes().contains(key),
{
}

/// A refresh that follows nothing interrupted and finds nothing changed has nothing to do: it
/// removes no record and no vector, and leaves the database states as they are.
pub proof fn law_quiet_refresh_changes_nothing(
    found: DiscoveredModel,
    previous: Map<Seq<char>, DatabaseModel>,
)
    requires
        found.pending is None,
        found.tasks().len() == 0,
        found.database_deletes.len() == 0,
        found.legacy_deletes.len() == 0,
        found.removed.len() == 0,
        found.excluded_state.len() == 0,
        found.excluded_index.len() == 0,
        forall|path: Seq<char>| #[trigger]
            found.database_states.contains_key(path) ==> previous.contains_key(path)
                && found.database_states[path] == previous[path],
    ensures
        found.record_deletes() == Set::<Seq<char>>::empty(),
        found.vector_deletes() == Set::<Seq<char>>::empty(),
        found.installed(previous) == previous,
{
    assert(found.removals() =~= Set::<Seq<char>>::empty());
    assert(found.installed(previous) =~= previous);
}

/// Absence from discovery alone removes nothing: a file's state is dropped only where the file
/// itself was looked up, was not there, and its container could be read.
pub proof fn law_unreachable_files_keep_their_state(
    files: Map<Seq<char>, FileModel>,
    probes: Map<Seq<char>, FileProbe>,
    key: Seq<char>,
)
    requires
        files.contains_key(key),
        probes.contains_key(key) ==> probes[key] != FileProbe::Removed,
    ensures
        files.remove_keys(removed_keys(files, probes)).contains_key(key),
        files.remove_keys(removed_keys(files, probes))[key] == files[key],
{
}

proof fn lemma_identities_keep_the_rest(
    files: Map<Seq<char>, FileModel>,
    unchanged: Seq<(Seq<char>, IdentityModel)>,
    n: int,
)
    requires
        0 <= n <= unchanged.len(),
    ensures
        ({
            let after = with_identities(files, unchanged, n);
            &&& after.dom() == files.dom()
            &&& forall|key: Seq<char>| #[trigger]
                files.contains_key(key) ==> after[key] == (FileModel {
                    identity: after[key].identity,
                    ..files[key]
                })
            &&& !identities_differ(files, unchanged, n) ==> after == files
        }),
    decreases n,
{
    if n > 0 {
        lemma_identities_keep_the_rest(files, unchanged, n - 1);
        let before = with_identities(files, unchanged, n - 1);
        let after = with_identities(files, unchanged, n);
        let (key, identity) = unchanged[n - 1];
        assert(after.dom() =~= files.dom());
        if before.contains_key(key) && before[key].identity == identity {
            assert(FileModel { identity, ..before[key] } == before[key]);
            assert(before.insert(key, before[key]) =~= before);
        }
    }
}

/// Bringing identities up to date adds and drops no file, changes nothing but identities, and
/// leaves everything as it was where no change is reported.
pub proof fn law_identities_are_all_that_changes(
    files: Map<Seq<char>, FileModel>,
    unchanged: Seq<(Seq<char>, IdentityModel)>,
    key: Seq<char>,
)
    ensures
        ({
            let after = with_identities(files, unchanged, unchanged.len() as int);
            &&& after.dom() == files.dom()
            &&& files.contains_key(key) ==> after[key] == (FileModel {
                identity: after[key].identity,
                ..files[key]
            })
            &&& !identities_differ(files, unchanged, unchanged.len() as int) ==> after == files
        }),
{
    lemma_identities_keep_the_rest(files, unchanged, unchanged.len() as int);
}

/// The files that a refresh leaves a state of: those that no step of its plan drops, with their
/// identities brought up to date.
pub open spec fn files_left(
    files: Map<Seq<char>, FileModel>,
    plan: ScanPlan,
    excluded: Set<Seq<char>>,
    superseded: Set<Seq<char>>,
    removed: Set<Seq<char>>,
    unchanged: Seq<(Seq<char>, IdentityModel)>,
) -> Map<Seq<char>, FileModel> {
    with_identities(
        files.remove_keys(where_run(plan.drops_excluded, excluded)).remove_keys(
            where_run(plan.lists_sessions, superseded),
        ).remove_keys(where_run(plan.probes_files, removed)),
        unchanged,
        unchanged.len() as int,
    )
}

/// A refresh looks at everything unless changes were reported, nothing was interrupted and the
/// index is not rebuilt. One that does not look at everything drops no file, whatever was
/// excluded, superseded or removed meanwhile, and records no scan.
pub proof fn law_partial_scans_keep_every_file(
    start: RefreshStart,
    recovering: bool,
    excluding: bool,
    files: Map<Seq<char>, FileModel>,
    excluded: Set<Seq<char>>,
    superseded: Set<Seq<char>>,
    removed: Set<Seq<char>>,
    unchanged: Seq<(Seq<char>, IdentityModel)>,
)
    ensures
        ({
            let plan = planned_scan(start, recovering, excluding);
            &&& !start.reported || recovering || start.empty_index_rebuild ==> plan.full_scan
            &&& plan.records_scan == plan.full_scan
            &&& !plan.full_scan ==> files_left(
                files,
                plan,
                excluded,
                superseded,
                removed,
                unchanged,
            ).dom() == files.dom()
        }),
{
    let plan = planned_scan(start, recovering, excluding);
    if !plan.full_scan {
        let none = Set::<Seq<char>>::empty();
        assert(files.remove_keys(none) =~= files);
        lemma_identities_keep_the_rest(files, unchanged, unchanged.len() as int);
    }
}

/// A database that was neither read nor found absent keeps its state.
pub proof fn law_unread_databases_keep_their_state(
    found: DiscoveredModel,
    previous: Map<Seq<char>, DatabaseModel>,
    path: Seq<char>,
)
    requires
        previous.contains_key(path),
        !found.database_deletes.contains(path),
        !found.database_states.contains_key(path),
    ensures
        found.installed(previous).contains_key(path),
        found.installed(previous)[path] == previous[path],
{
}

/// Everything is scanned unless changes were reported, nothing is recovered, the index is not
/// rebuilt because it is empty, there is a state to build on, and the changes could be told
/// apart. A full scan drops, lists, probes and records, and asks the index where something is
/// excluded. Any other scan does none of that.
pub proof fn law_full_scans_do_everything(start: RefreshStart, recovering: bool, excluding: bool)
    ensures
        ({
            let plan = planned_scan(start, recovering, excluding);
            &&& !start.reported || recovering || start.empty_index_rebuild || !start.state_exists
                || !start.selected ==> plan.full_scan && scans_everything(start, recovering)
            &&& start.reported && !recovering && !start.empty_index_rebuild && start.state_exists
                && start.selected ==> !plan.full_scan && !scans_everything(start, recovering)
            &&& plan.full_scan ==> plan.drops_excluded && plan.lists_sessions && plan.probes_files
                && plan.records_scan
            &&& !plan.full_scan ==> !plan.drops_excluded && !plan.lists_sessions
                && !plan.probes_files && !plan.records_scan && !plan.checks_index
            &&& plan.full_scan && excluding ==> plan.checks_index
            &&& !excluding ==> !plan.checks_index
        }),
{
}

/// A file is excluded exactly if some pattern matches its path, or matches what the path stands
/// for where that is another path. Only files on record are dropped, and all that are excluded.
pub proof fn law_matched_files_are_excluded(
    files: Map<Seq<char>, FileModel>,
    patterns: Seq<Seq<char>>,
    canonical: Map<Seq<char>, Seq<u8>>,
    key: Seq<char>,
    i: int,
)
    ensures
        ({
            let path = encode_utf8(key);
            let dropped = excluded_keys(files, patterns, canonical);
            let other = canonical.contains_key(key) && crate::path::byte_parts(canonical[key])
                != crate::path::byte_parts(path);
            &&& 0 <= i < patterns.len() && crate::outside::glob_matches(patterns[i], path)
                ==> key_excluded(patterns, canonical, key)
            &&& 0 <= i < patterns.len() && other && crate::outside::glob_matches(
                patterns[i],
                canonical[key],
            ) ==> key_excluded(patterns, canonical, key)
            &&& (forall|k: int|
                #![trigger patterns[k]]
                0 <= k < patterns.len() ==> !crate::outside::glob_matches(patterns[k], path) && !(
                other && crate::outside::glob_matches(patterns[k], canonical[key])))
                ==> !key_excluded(patterns, canonical, key)
            &&& dropped.contains(key) <==> files.contains_key(key) && key_excluded(
                patterns,
                canonical,
                key,
            )
        }),
{
}

/// A file leaves the record exactly if it is on record and is known to be gone: it was not found
/// although the directory that held it could be read. What is decided runs where the plan says
/// so, and nowhere else.
pub proof fn law_files_that_are_gone_leave(
    files: Map<Seq<char>, FileModel>,
    probes: Map<Seq<char>, FileProbe>,
    key: Seq<char>,
    keys: Set<Seq<char>>,
)
    ensures
        removed_keys(files, probes).contains(key) <==> files.contains_key(key)
            && probes.contains_key(key) && probes[key] == FileProbe::Removed,
        where_run(true, keys).contains(key) == keys.contains(key),
        !where_run(false, keys).contains(key),
{
}

/// A task reads the file again and replaces its records, or has to because the parser changed.
pub open spec fn written_anew(tasks: Seq<TaskModel>, key: Seq<char>) -> bool {
    exists|i: int|
        0 <= i < tasks.len() && ((#[trigger] tasks[i]).change == FileChange::Replaced
            || tasks[i].change == FileChange::ParserChanged) && lossy_text(tasks[i].path) == key
}

/// What leaves the index: the databases that are gone, the transcripts that a database holds
/// now, the files that are gone or excluded, on record or in the index, and the records of files
/// that are written anew. Nothing else does.
pub proof fn law_removals_have_a_reason(found: DiscoveredModel, key: Seq<char>)
    ensures
        found.removals().contains(key) <==> found.database_deletes.contains(key)
            || found.legacy_deletes.contains(key) || found.removed.contains(key)
            || found.excluded_state.contains(key) || found.excluded_index.contains(key)
            || written_anew(found.transcripts.tasks, key) || written_anew(found.legacy.tasks, key),
{
    let tasks = found.tasks();
    let first = found.transcripts.tasks;
    let second = found.legacy.tasks;
    if replaced_keys(tasks).contains(key) {
        let i = choose|i: int|
            0 <= i < tasks.len() && (#[trigger] tasks[i]).change.replaces() && lossy_text(
                tasks[i].path,
            ) == key;
        if i < first.len() {
            assert(first[i] == tasks[i]);
        } else {
            assert(second[i - first.len()] == tasks[i]);
        }
    }
    if written_anew(first, key) {
        let i = choose|i: int|
            0 <= i < first.len() && ((#[trigger] first[i]).change == FileChange::Replaced
                || first[i].change == FileChange::ParserChanged) && lossy_text(first[i].path)
                == key;
        assert(tasks[i] == first[i]);
        assert(tasks[i].change.replaces());
    }
    if written_anew(second, key) {
        let i = choose|i: int|
            0 <= i < second.len() && ((#[trigger] second[i]).change == FileChange::Replaced
                || second[i].change == FileChange::ParserChanged) && lossy_text(second[i].path)
                == key;
        assert(tasks[first.len() + i] == second[i]);
        assert(tasks[first.len() + i].change.replaces());
    }
}

/// An interrupted refresh is undone before it is done again: the records of every source that it
/// had begun with are deleted, and the vectors of those that it had marked and of databases.
/// Nothing else is deleted beyond the removals.
pub proof fn law_interrupted_refreshes_are_undone(
    found: DiscoveredModel,
    pending: PendingModel,
    key: Seq<char>,
)
    ensures
        found.pending is None ==> (found.record_deletes().contains(key)
            == found.removals().contains(key)) && (found.vector_deletes().contains(key)
            == found.removals().contains(key)),
        found.pending == Some(pending) ==> {
            &&& found.record_deletes().contains(key) <==> found.removals().contains(key)
                || pending.source_paths.contains(key)
            &&& found.vector_deletes().contains(key) <==> found.removals().contains(key)
                || pending.vector_delete_paths.contains(key) || (pending.source_paths.contains(key)
                && found.pending_databases.contains(key))
        },
{
}

/// When embeddings are recovered: where the interrupted refresh was to publish them, told on its
/// own or with the vectors, and where it was to publish vectors that exist and a source that it
/// had begun with is read again whose vectors it had not marked for deletion.
pub proof fn law_embeddings_are_recovered(
    pending: PendingModel,
    vectors_exist: bool,
    tasks: Seq<TaskModel>,
    i: int,
)
    ensures
        pending.embedding_publication == Some(true) ==> recovers_embeddings(
            pending,
            vectors_exist,
            tasks,
        ),
        pending.embedding_publication is None && pending.vector_publication ==> recovers_embeddings(
            pending,
            vectors_exist,
            tasks,
        ),
        pending.vector_publication && vectors_exist && 0 <= i < tasks.len()
            && pending.source_paths.contains(lossy_text(tasks[i].path))
            && !pending.vector_delete_paths.contains(lossy_text(tasks[i].path))
            ==> recovers_embeddings(pending, vectors_exist, tasks),
        !pending.vector_publication && pending.embedding_publication != Some(true)
            ==> !recovers_embeddings(pending, vectors_exist, tasks),
        pending.embedding_publication == Some(false) && (!vectors_exist || forall|k: int|
            #![trigger tasks[k]]
            0 <= k < tasks.len() ==> !pending.source_paths.contains(lossy_text(tasks[k].path))
                || pending.vector_delete_paths.contains(lossy_text(tasks[k].path)))
            ==> !recovers_embeddings(pending, vectors_exist, tasks),
{
}

/// Vectors are cleaned up after an interruption exactly if a session that it left pending
/// belongs to a database that was read, or if one of its sources is a database.
pub proof fn law_vectors_are_cleaned_up(
    pending: PendingModel,
    databases: Set<Seq<char>>,
    outcomes: Map<Seq<char>, DatabaseOutcome>,
    scope: (Seq<char>, Seq<char>),
    path: Seq<char>,
)
    ensures
        pending.session_scopes.contains(scope) && outcomes.contains_key(scope.0)
            && outcomes[scope.0] == DatabaseOutcome::Ready ==> recovers_cleanup(
            pending,
            databases,
            outcomes,
        ),
        pending.source_paths.contains(path) && databases.contains(path) ==> recovers_cleanup(
            pending,
            databases,
            outcomes,
        ),
        (forall|i: int|
            #![trigger pending.session_scopes[i]]
            0 <= i < pending.session_scopes.len() ==> !(outcomes.contains_key(
                pending.session_scopes[i].0,
            ) && outcomes[pending.session_scopes[i].0] == DatabaseOutcome::Ready)) && (forall|i: int|
            #![trigger pending.source_paths[i]]
            0 <= i < pending.source_paths.len() ==> !databases.contains(pending.source_paths[i]))
            ==> !recovers_cleanup(pending, databases, outcomes),
{
}

proof fn lemma_last_identity(
    files: Map<Seq<char>, FileModel>,
    unchanged: Seq<(Seq<char>, IdentityModel)>,
    n: int,
    key: Seq<char>,
    i: int,
)
    requires
        0 <= n <= unchanged.len(),
        files.contains_key(key),
        i < n ==> 0 <= i && unchanged[i].0 == key,
        forall|j: int| 0 <= j < n && i < j ==> (#[trigger] unchanged[j]).0 != key,
        i >= n ==> forall|j: int| 0 <= j < n ==> (#[trigger] unchanged[j]).0 != key,
    ensures
        ({
            let after = with_identities(files, unchanged, n);
            &&& after.contains_key(key)
            &&& i < n ==> after[key].identity == unchanged[i].1
            &&& i >= n ==> after[key] == files[key]
        }),
    decreases n,
{
    if n > 0 {
        if i < n - 1 {
            lemma_last_identity(files, unchanged, n - 1, key, i);
            assert(unchanged[n - 1].0 != key);
        } else if i == n - 1 {
            lemma_kept_domain(files, unchanged, n - 1);
        } else {
            lemma_last_identity(files, unchanged, n - 1, key, i);
            assert(unchanged[n - 1].0 != key);
        }
    }
}

proof fn lemma_kept_domain(
    files: Map<Seq<char>, FileModel>,
    unchanged: Seq<(Seq<char>, IdentityModel)>,
    n: int,
)
    requires
        0 <= n <= unchanged.len(),
    ensures
        with_identities(files, unchanged, n).dom() == files.dom(),
    decreases n,
{
    if n > 0 {
        lemma_kept_domain(files, unchanged, n - 1);
        assert(with_identities(files, unchanged, n).dom() =~= files.dom());
    }
}

/// A file that has not changed gets the identity that was observed, the last one where there are
/// several, and a file that was not observed keeps its own. There is something to store if the
/// identity of a file that is observed first differs from the one on record.
pub proof fn law_observed_identities_are_recorded(
    files: Map<Seq<char>, FileModel>,
    unchanged: Seq<(Seq<char>, IdentityModel)>,
    key: Seq<char>,
    i: int,
)
    requires
        files.contains_key(key),
    ensures
        ({
            let n = unchanged.len() as int;
            let after = with_identities(files, unchanged, n);
            &&& 0 <= i < n && unchanged[i].0 == key && (forall|j: int|
                i < j < n ==> (#[trigger] unchanged[j]).0 != key) ==> after[key].identity
                == unchanged[i].1
            &&& (forall|j: int| 0 <= j < n ==> (#[trigger] unchanged[j]).0 != key) ==> after[key]
                == files[key]
            &&& 0 <= i < n && unchanged[i].0 == key && unchanged[i].1 != files[key].identity && (
            forall|j: int| 0 <= j < i ==> (#[trigger] unchanged[j]).0 != key) ==> identities_differ(
                files,
                unchanged,
                n,
            )
        }),
{
    let n = unchanged.len() as int;
    if 0 <= i < n && unchanged[i].0 == key && forall|j: int|
        i < j < n ==> (#[trigger] unchanged[j]).0 != key {
        lemma_last_identity(files, unchanged, n, key, i);
    }
    if forall|j: int| 0 <= j < n ==> (#[trigger] unchanged[j]).0 != key {
        lemma_last_identity(files, unchanged, n, key, n);
    }
    if 0 <= i < n && unchanged[i].0 == key && unchanged[i].1 != files[key].identity && forall|
        j: int,
    |
        0 <= j < i ==> (#[trigger] unchanged[j]).0 != key {
        lemma_last_identity(files, unchanged, i, key, i);
        lemma_differences_stay(files, unchanged, i + 1, n);
    }
}

proof fn lemma_differences_stay(
    files: Map<Seq<char>, FileModel>,
    unchanged: Seq<(Seq<char>, IdentityModel)>,
    m: int,
    n: int,
)
    requires
        0 <= m <= n <= unchanged.len(),
        identities_differ(files, unchanged, m),
    ensures
        identities_differ(files, unchanged, n),
    decreases n - m,
{
    if m < n {
        lemma_differences_stay(files, unchanged, m, n - 1);
    }
}

/// What is installed of the databases: the states that were read now, and of the others those on
/// record that are not deleted.
pub proof fn law_installed_states(
    found: DiscoveredModel,
    previous: Map<Seq<char>, DatabaseModel>,
    path: Seq<char>,
)
    ensures
        ({
            let installed = found.installed(previous);
            &&& found.database_states.contains_key(path) ==> installed.contains_key(path)
                && installed[path] == found.database_states[path]
            &&& !found.database_states.contains_key(path) ==> (installed.contains_key(path)
                <==> previous.contains_key(path) && !found.database_deletes.contains(path))
            &&& !found.database_states.contains_key(path) && installed.contains_key(path)
                ==> installed[path] == previous[path]
        }),
{
}

/// A refresh counts everything once: the transcripts, the databases and the single-file
/// sessions, and the excluded files that leave the record count as skipped. The tasks and the
/// unchanged files are those of the transcripts and then those of the sessions.
pub proof fn law_refreshes_count_everything_once(found: DiscoveredModel)
    ensures
        found.files_scanned() == found.transcripts.files_scanned + found.databases.0
            + found.legacy.files_scanned,
        found.files_skipped() == found.transcripts.files_skipped + found.databases.1
            + found.legacy.files_skipped + found.excluded_state.len(),
        found.total_bytes() == found.transcripts.total_bytes + found.databases.2
            + found.legacy.total_bytes,
        found.tasks() == found.transcripts.tasks + found.legacy.tasks,
        found.unchanged() == found.transcripts.unchanged_identities
            + found.legacy.unchanged_identities,
        found.fits() <==> found.files_scanned() <= usize::MAX && found.files_skipped() <= usize::MAX
            && found.total_bytes() <= u64::MAX,
{
}

/// Where every observed identity is the one on record, nothing changes and there is nothing to
/// store.
pub proof fn law_same_identities_change_nothing(
    files: Map<Seq<char>, FileModel>,
    unchanged: Seq<(Seq<char>, IdentityModel)>,
    n: int,
)
    requires
        0 <= n <= unchanged.len(),
        forall|i: int|
            0 <= i < unchanged.len() && files.contains_key((#[trigger] unchanged[i]).0)
                ==> files[unchanged[i].0].identity == unchanged[i].1,
    ensures
        with_identities(files, unchanged, n) == files,
        !identities_differ(files, unchanged, n),
    decreases n,
{
    if n > 0 {
        law_same_identities_change_nothing(files, unchanged, n - 1);
        let key = unchanged[n - 1].0;
        if files.contains_key(key) {
            assert(with_identities(files, unchanged, n)[key] == files[key]);
        }
        assert(with_identities(files, unchanged, n) =~= files);
    }
}

/// A file counts as removed only where it was not found although its directory could be read.
/// Reported changes stand for a full scan exactly where the plan of the scan says so too, as far
/// as they could be told apart.
pub proof fn law_removal_has_to_be_seen(
    start: RefreshStart,
    recovering: bool,
    not_found: bool,
    container_readable: bool,
)
    ensures
        probe_of(not_found, container_readable) == FileProbe::Removed <==> not_found
            && container_readable,
        probe_of(not_found, container_readable) == FileProbe::Unreachable <==> not_found
            && !container_readable,
        probe_of(not_found, container_readable) == FileProbe::Other <==> !not_found,
        changes_suffice(
            start.reported,
            recovering,
            start.empty_index_rebuild,
            start.state_exists,
        ) <==> start.reported && !recovering && !start.empty_index_rebuild && start.state_exists,
        !scans_everything(start, recovering) <==> start.selected && changes_suffice(
            start.reported,
            recovering,
            start.empty_index_rebuild,
            start.state_exists,
        ),
{
}

} // verus!
