//! Session databases: which of them could be read, which one owns each session, and which
//! sessions have to be written again or removed.

use vstd::prelude::*;
use vstd::utf8::encode_utf8;
use crate::keys::{TextMap, TextSet};
use crate::model::Modeled;
use crate::order::{Ranked, Relation};
use crate::sorted::{increasing, lemma_take_members, Key, Ordered, SortedMap, SortedSet};
use crate::state::{DatabaseModel, OpencodeDatabaseState};

verus! {

/// How far a database got in this refresh.
#[derive(Clone, Copy, Debug, PartialEq, Eq, Structural)]
pub enum DatabaseOutcome {
    /// It was scanned, and waits for its sessions to be read.
    Planned,
    /// Its sessions were read.
    Ready,
    /// It could not be read.
    Failed,
    /// It is known to be gone.
    ConfirmedAbsent,
}

impl DeepView for DatabaseOutcome {
    type V = DatabaseOutcome;

    open spec fn deep_view(&self) -> DatabaseOutcome {
        *self
    }
}

impl Modeled for DatabaseOutcome {
    fn duplicate(&self) -> (copy: Self) {
        *self
    }

    fn same(&self, other: &Self) -> (equal: bool) {
        *self == *other
    }
}

/// A session of one source.
pub struct SessionScope {
    pub source_path: String,
    pub session_id: String,
}

impl DeepView for SessionScope {
    type V = (Seq<char>, Seq<char>);

    open spec fn deep_view(&self) -> (Seq<char>, Seq<char>) {
        (self.source_path@, self.session_id@)
    }
}

impl Modeled for SessionScope {
    fn duplicate(&self) -> (copy: Self) {
        SessionScope {
            source_path: self.source_path.duplicate(),
            session_id: self.session_id.duplicate(),
        }
    }

    fn same(&self, other: &Self) -> (equal: bool) {
        self.source_path.same(&other.source_path) && self.session_id.same(&other.session_id)
    }
}

impl Ranked for SessionScope {
    open spec fn rank(&self) -> Seq<Seq<u8>> {
        seq![encode_utf8(self.source_path@), encode_utf8(self.session_id@)]
    }

    fn relation(&self, other: &Self) -> (relation: Relation) {
        crate::keys::compare_pairs(
            self.source_path.as_str().as_bytes(),
            self.session_id.as_str().as_bytes(),
            other.source_path.as_str().as_bytes(),
            other.session_id.as_str().as_bytes(),
        )
    }
}

impl Ordered for SessionScope {
    open spec fn rank_of(model: (Seq<char>, Seq<char>)) -> Seq<Seq<u8>> {
        seq![encode_utf8(model.0), encode_utf8(model.1)]
    }
}

impl Key for SessionScope {
    proof fn lemma_rank(&self) {
    }

    proof fn lemma_injective(left: (Seq<char>, Seq<char>), right: (Seq<char>, Seq<char>)) {
        <(String, String) as Key>::lemma_injective(left, right);
    }
}

/// What a lookup of a database's file showed.
#[derive(Clone, Copy, Debug, PartialEq, Eq, Structural)]
pub enum DatabaseStat {
    Present(u64),
    Missing,
    Failed,
}

/// How the inspection of a database goes on.
#[derive(Clone, Copy, Debug, PartialEq, Eq, Structural)]
pub enum DatabaseStep {
    /// It goes on with this database.
    Proceed,
    /// This database is left aside, and the next one inspected.
    Skip,
    /// The selection does not suffice, and everything has to be scanned.
    Resync,
    /// The error is handed to the caller.
    Fail,
}

/// What a refresh knows of the databases so far.
#[verifier::ext_equal]
pub struct ScanState {
    pub outcomes: Map<Seq<char>, DatabaseOutcome>,
    pub discovered: Set<Seq<char>>,
    pub files_scanned: nat,
    pub files_skipped: nat,
    pub total_bytes: nat,
}

impl ScanState {
    /// A file was skipped.
    pub open spec fn skipped(self) -> ScanState {
        ScanState { files_skipped: self.files_skipped + 1, ..self }
    }

    /// The database got this far.
    pub open spec fn with_outcome(self, key: Seq<char>, outcome: DatabaseOutcome) -> ScanState {
        ScanState { outcomes: self.outcomes.insert(key, outcome), ..self }
    }

    /// After the database's file was looked up.
    pub open spec fn after_stat(
        self,
        key: Seq<char>,
        stat: DatabaseStat,
        full_scan: bool,
    ) -> ScanState {
        let seen = ScanState { discovered: self.discovered.insert(key), ..self };
        match stat {
            DatabaseStat::Present(size) => ScanState {
                files_scanned: seen.files_scanned + 1,
                total_bytes: seen.total_bytes + size as nat,
                ..seen
            },
            _ => if full_scan {
                seen.with_outcome(key, DatabaseOutcome::Failed).skipped()
            } else {
                seen
            },
        }
    }

    /// After an attempt to read the database that takes it to `reached` where it succeeds.
    pub open spec fn after_read(
        self,
        key: Seq<char>,
        reached: DatabaseOutcome,
        step: DatabaseStep,
    ) -> ScanState {
        match step {
            DatabaseStep::Proceed => self.with_outcome(key, reached),
            DatabaseStep::Skip => self.with_outcome(key, DatabaseOutcome::Failed).skipped(),
            _ => self,
        }
    }
}

/// How the inspection goes on after the database's file was looked up.
pub open spec fn stat_step(stat: DatabaseStat, full_scan: bool) -> DatabaseStep {
    match stat {
        DatabaseStat::Present(_) => DatabaseStep::Proceed,
        DatabaseStat::Missing => if full_scan {
            DatabaseStep::Skip
        } else {
            DatabaseStep::Resync
        },
        DatabaseStat::Failed => if full_scan {
            DatabaseStep::Skip
        } else {
            DatabaseStep::Fail
        },
    }
}

/// How the inspection goes on after a scan that found `sessions`, or failed. A selected
/// database whose sessions are not those on record makes a full scan necessary.
pub open spec fn scan_step(
    sessions: Option<Set<Seq<char>>>,
    previous: Option<Set<Seq<char>>>,
    full_scan: bool,
) -> DatabaseStep {
    match sessions {
        Some(found) => if !full_scan && previous != Some(found) {
            DatabaseStep::Resync
        } else {
            DatabaseStep::Proceed
        },
        None => if full_scan {
            DatabaseStep::Skip
        } else {
            DatabaseStep::Fail
        },
    }
}

/// How the inspection goes on after an attempt to read the sessions.
pub open spec fn hydration_step(succeeded: bool, full_scan: bool) -> DatabaseStep {
    if succeeded {
        DatabaseStep::Proceed
    } else if full_scan {
        DatabaseStep::Skip
    } else {
        DatabaseStep::Fail
    }
}

/// The inspection of the databases.
pub struct DatabaseInspection {
    outcomes: TextMap<DatabaseOutcome>,
    discovered: TextSet,
    files_scanned: usize,
    files_skipped: usize,
    total_bytes: u64,
    full_scan: bool,
}

impl DatabaseInspection {
    /// What is known so far.
    pub closed spec fn state(&self) -> ScanState {
        ScanState {
            outcomes: self.outcomes.deep_view(),
            discovered: self.discovered.deep_view(),
            files_scanned: self.files_scanned as nat,
            files_skipped: self.files_skipped as nat,
            total_bytes: self.total_bytes as nat,
        }
    }

    /// Whether everything is scanned, and not only a selection.
    pub closed spec fn full_scan(&self) -> bool {
        self.full_scan
    }

    /// The counters have room for one more file of this size.
    pub open spec fn has_room(&self, size: u64) -> bool {
        &&& self.state().files_scanned < usize::MAX
        &&& self.state().files_skipped < usize::MAX
        &&& self.state().total_bytes + size <= u64::MAX
    }

    /// Whether the counters have room for one more file of this size.
    pub fn fits(&self, size: u64) -> (result: bool)
        ensures
            result == self.has_room(size),
    {
        self.files_scanned < usize::MAX && self.files_skipped < usize::MAX
            && self.total_bytes.checked_add(size).is_some()
    }

    /// Nothing was inspected yet.
    pub fn new(full_scan: bool) -> (inspection: Self)
        ensures
            inspection.full_scan() == full_scan,
            inspection.state() == (ScanState {
                outcomes: Map::empty(),
                discovered: Set::empty(),
                files_scanned: 0,
                files_skipped: 0,
                total_bytes: 0,
            }),
    {
        DatabaseInspection {
            outcomes: SortedMap::new(),
            discovered: SortedSet::new(),
            files_scanned: 0,
            files_skipped: 0,
            total_bytes: 0,
            full_scan,
        }
    }

    /// Notes that a database is excluded.
    pub fn excluded(&mut self)
        requires
            old(self).has_room(0),
        ensures
            final(self).full_scan() == old(self).full_scan(),
            final(self).state() == old(self).state().skipped(),
    {
        self.files_skipped = self.files_skipped + 1;
    }

    /// Notes what a lookup of the database's file showed.
    pub fn looked_up(&mut self, key: &String, stat: DatabaseStat) -> (step: DatabaseStep)
        requires
            old(self).has_room(
                match stat {
                    DatabaseStat::Present(size) => size,
                    _ => 0,
                },
            ),
        ensures
            final(self).full_scan() == old(self).full_scan(),
            step == stat_step(stat, old(self).full_scan()),
            final(self).state() == old(self).state().after_stat(
                key@,
                stat,
                old(self).full_scan(),
            ),
    {
        self.discovered.insert(key.duplicate());
        match stat {
            DatabaseStat::Present(size) => {
                self.files_scanned = self.files_scanned + 1;
                self.total_bytes = self.total_bytes + size;
                DatabaseStep::Proceed
            },
            DatabaseStat::Missing => {
                if self.full_scan {
                    self.outcomes.insert(key.duplicate(), DatabaseOutcome::Failed);
                    self.files_skipped = self.files_skipped + 1;
                    DatabaseStep::Skip
                } else {
                    DatabaseStep::Resync
                }
            },
            DatabaseStat::Failed => {
                if self.full_scan {
                    self.outcomes.insert(key.duplicate(), DatabaseOutcome::Failed);
                    self.files_skipped = self.files_skipped + 1;
                    DatabaseStep::Skip
                } else {
                    DatabaseStep::Fail
                }
            },
        }
    }

    /// Notes the sessions that a scan of the database found, or that the scan failed.
    pub fn scanned(
        &mut self,
        key: &String,
        sessions: Option<&Vec<String>>,
        previous: Option<&OpencodeDatabaseState>,
    ) -> (step: DatabaseStep)
        requires
            old(self).has_room(0),
        ensures
            final(self).full_scan() == old(self).full_scan(),
            step == scan_step(
                match sessions {
                    Some(ids) => Some(ids.deep_view().to_set()),
                    None => None,
                },
                match previous {
                    Some(state) => Some(state.owned_session_ids.deep_view()),
                    None => None,
                },
                old(self).full_scan(),
            ),
            final(self).state() == old(self).state().after_read(
                key@,
                DatabaseOutcome::Planned,
                step,
            ),
    {
        match sessions {
            Some(ids) => {
                if !self.full_scan {
                    let found = SortedSet::from_list(ids);
                    let unchanged = match previous {
                        Some(state) => found.same(&state.owned_session_ids),
                        None => false,
                    };
                    if !unchanged {
                        return DatabaseStep::Resync;
                    }
                }
                self.outcomes.insert(key.duplicate(), DatabaseOutcome::Planned);
                DatabaseStep::Proceed
            },
            None => {
                if !self.full_scan {
                    return DatabaseStep::Fail;
                }
                self.outcomes.insert(key.duplicate(), DatabaseOutcome::Failed);
                self.files_skipped = self.files_skipped + 1;
                DatabaseStep::Skip
            },
        }
    }

    /// Notes whether the sessions of the database could be read.
    pub fn hydrated(&mut self, key: &String, succeeded: bool) -> (step: DatabaseStep)
        requires
            old(self).has_room(0),
        ensures
            final(self).full_scan() == old(self).full_scan(),
            step == hydration_step(succeeded, old(self).full_scan()),
            final(self).state() == old(self).state().after_read(
                key@,
                DatabaseOutcome::Ready,
                step,
            ),
    {
        if succeeded {
            self.outcomes.insert(key.duplicate(), DatabaseOutcome::Ready);
            return DatabaseStep::Proceed;
        }
        if !self.full_scan {
            return DatabaseStep::Fail;
        }
        self.outcomes.insert(key.duplicate(), DatabaseOutcome::Failed);
        self.files_skipped = self.files_skipped + 1;
        DatabaseStep::Skip
    }

    /// How far each database got.
    pub fn outcomes(&self) -> (outcomes: &TextMap<DatabaseOutcome>)
        ensures
            outcomes.deep_view() == self.state().outcomes,
    {
        &self.outcomes
    }

    /// The databases that were found.
    pub fn discovered(&self) -> (discovered: &TextSet)
        ensures
            discovered.deep_view() == self.state().discovered,
    {
        &self.discovered
    }

    /// How many files were scanned and skipped, and how many bytes were scanned.
    pub fn totals(&self) -> (totals: (usize, usize, u64))
        ensures
            totals.0 == self.state().files_scanned,
            totals.1 == self.state().files_skipped,
            totals.2 == self.state().total_bytes,
    {
        (self.files_scanned, self.files_skipped, self.total_bytes)
    }
}

/// A database is never lost silently: each one that was looked up and not left waiting got an
/// outcome or stopped a scan of a selection, and a full scan never stops.
pub proof fn law_full_scan_never_stops(
    stat: DatabaseStat,
    sessions: Option<Set<Seq<char>>>,
    previous: Option<Set<Seq<char>>>,
    succeeded: bool,
)
    ensures
        stat_step(stat, true) == DatabaseStep::Proceed || stat_step(stat, true)
            == DatabaseStep::Skip,
        scan_step(sessions, previous, true) == DatabaseStep::Proceed || scan_step(
            sessions,
            previous,
            true,
        ) == DatabaseStep::Skip,
        hydration_step(succeeded, true) == DatabaseStep::Proceed || hydration_step(succeeded, true)
            == DatabaseStep::Skip,
        stat_step(stat, false) != DatabaseStep::Skip,
        scan_step(sessions, previous, false) != DatabaseStep::Skip,
        hydration_step(succeeded, false) != DatabaseStep::Skip,
{
}

/// The sessions of a source among the scopes.
pub open spec fn sessions_of(scopes: Seq<(Seq<char>, Seq<char>)>, path: Seq<char>) -> Set<Seq<char>> {
    Set::new(|session: Seq<char>| scopes.contains((path, session)))
}

/// The sessions to read of a database: those that changed, and those that an interrupted
/// refresh left pending.
pub fn hydration_sessions(
    dirty: &Vec<String>,
    pending: Option<&Vec<SessionScope>>,
    path: &String,
) -> (sessions: Vec<String>)
    ensures
        match pending {
            None => sessions.deep_view() == dirty.deep_view(),
            Some(scopes) => {
                &&& increasing::<String>(sessions.deep_view())
                &&& sessions.deep_view().to_set() == dirty.deep_view().to_set().union(
                    sessions_of(scopes.deep_view(), path@),
                )
            },
        },
{
    let scopes = match pending {
        None => {
            return dirty.duplicate();
        },
        Some(scopes) => scopes,
    };
    let mut sessions: TextSet = SortedSet::from_list(dirty);
    let ghost models = scopes.deep_view();
    let ghost base = dirty.deep_view().to_set();
    let mut i: usize = 0;
    assert(sessions.deep_view() =~= base.union(sessions_of(models.take(0), path@)));
    while i < scopes.len()
        invariant
            i <= scopes@.len(),
            models == scopes.deep_view(),
            sessions.deep_view() == base.union(sessions_of(models.take(i as int), path@)),
        decreases scopes@.len() - i,
    {
        let scope = &scopes[i];
        assert(models[i as int] == scope.deep_view());
        if scope.source_path.same(path) {
            sessions.insert(scope.session_id.duplicate());
        }
        proof {
            let shorter = models.take(i as int);
            let longer = models.take(i + 1);
            lemma_take_members(models, i as int);
            assert forall|s: Seq<char>| #[trigger] longer.contains((path@, s)) == (
            shorter.contains((path@, s)) || models[i as int] == (path@, s)) by {
                assert(longer.to_set().contains((path@, s)) == shorter.to_set().insert(
                    models[i as int],
                ).contains((path@, s)));
            }
            assert(sessions.deep_view() =~= base.union(sessions_of(longer, path@)));
        }
        i += 1;
    }
    assert(models.take(i as int) =~= models);
    sessions.list()
}

/// A session as a database lists it.
pub struct ListedSession {
    pub id: String,
    pub directory: String,
}

/// A database whose sessions were read.
pub struct ReadyDatabase {
    pub path: String,
    pub sessions: Vec<ListedSession>,
    pub dirty_session_ids: Vec<String>,
    pub event_rowid: i64,
    pub event_id: Option<String>,
}

/// The model of [`ReadyDatabase`]: each session with its directory.
#[verifier::ext_equal]
pub struct ReadyModel {
    pub path: Seq<char>,
    pub sessions: Seq<(Seq<char>, Seq<char>)>,
    pub dirty: Seq<Seq<char>>,
    pub event_rowid: i64,
    pub event_id: Option<Seq<char>>,
}

impl DeepView for ListedSession {
    type V = (Seq<char>, Seq<char>);

    open spec fn deep_view(&self) -> (Seq<char>, Seq<char>) {
        (self.id@, self.directory@)
    }
}

impl DeepView for ReadyDatabase {
    type V = ReadyModel;

    open spec fn deep_view(&self) -> ReadyModel {
        ReadyModel {
            path: self.path@,
            sessions: self.sessions.deep_view(),
            dirty: self.dirty_session_ids.deep_view(),
            event_rowid: self.event_rowid,
            event_id: self.event_id.deep_view(),
        }
    }
}

/// The ids of the sessions that a database lists.
pub open spec fn listed_ids(sessions: Seq<(Seq<char>, Seq<char>)>) -> Set<Seq<char>> {
    Set::new(|id: Seq<char>| exists|i: int| 0 <= i < sessions.len() && (#[trigger] sessions[i]).0 == id)
}

/// The owners after a database has claimed sessions: those that nobody claimed before.
pub open spec fn claimed(
    owners: Map<Seq<char>, Seq<char>>,
    path: Seq<char>,
    sessions: Set<Seq<char>>,
) -> Map<Seq<char>, Seq<char>> {
    Map::new(
        |id: Seq<char>| owners.contains_key(id) || sessions.contains(id),
        |id: Seq<char>|
            if owners.contains_key(id) {
                owners[id]
            } else {
                path
            },
    )
}

/// The outcome of a database.
pub open spec fn has_outcome(
    outcomes: Map<Seq<char>, DatabaseOutcome>,
    path: Seq<char>,
    outcome: DatabaseOutcome,
) -> bool {
    outcomes.contains_key(path) && outcomes[path] == outcome
}

/// The owners after the first `n` databases on record have kept their sessions, as far as they
/// could not be read.
pub open spec fn kept_owners(
    keys: Seq<Seq<char>>,
    values: Seq<DatabaseModel>,
    classified: Map<Seq<char>, DatabaseOutcome>,
    n: int,
) -> Map<Seq<char>, Seq<char>>
    decreases n,
{
    if n <= 0 {
        Map::empty()
    } else {
        let before = kept_owners(keys, values, classified, n - 1);
        if has_outcome(classified, keys[n - 1], DatabaseOutcome::Failed) {
            claimed(before, keys[n - 1], values[n - 1].owned_session_ids)
        } else {
            before
        }
    }
}

/// The owners after the first `n` databases that were read have claimed their sessions.
pub open spec fn owners_after(
    base: Map<Seq<char>, Seq<char>>,
    ready: Seq<ReadyModel>,
    n: int,
) -> Map<Seq<char>, Seq<char>>
    decreases n,
{
    if n <= 0 {
        base
    } else {
        claimed(
            owners_after(base, ready, n - 1),
            ready[n - 1].path,
            listed_ids(ready[n - 1].sessions),
        )
    }
}

/// Who owns which session: first the databases on record that could not be read keep theirs,
/// in the order of their paths, then those that were read claim what they list, in their order.
pub open spec fn session_owners(
    keys: Seq<Seq<char>>,
    values: Seq<DatabaseModel>,
    classified: Map<Seq<char>, DatabaseOutcome>,
    ready: Seq<ReadyModel>,
) -> Map<Seq<char>, Seq<char>> {
    owners_after(
        kept_owners(keys, values, classified, keys.len() as int),
        ready,
        ready.len() as int,
    )
}

fn claim_all(owners: &mut TextMap<String>, path: &String, sessions: &Vec<String>)
    ensures
        final(owners).deep_view() == claimed(
            old(owners).deep_view(),
            path@,
            sessions.deep_view().to_set(),
        ),
{
    let ghost before = owners.deep_view();
    let ghost models = sessions.deep_view();
    let mut i: usize = 0;
    assert(owners.deep_view() =~= claimed(before, path@, models.take(0).to_set()));
    while i < sessions.len()
        invariant
            i <= sessions@.len(),
            models == sessions.deep_view(),
            owners.deep_view() == claimed(before, path@, models.take(i as int).to_set()),
        decreases sessions@.len() - i,
    {
        if !owners.contains_key(&sessions[i]) {
            owners.insert(sessions[i].duplicate(), path.duplicate());
        }
        proof {
            lemma_take_members(models, i as int);
            assert(models[i as int] == sessions@[i as int].deep_view());
            assert(owners.deep_view() =~= claimed(before, path@, models.take(i + 1).to_set()));
        }
        i += 1;
    }
    assert(models.take(i as int) =~= models);
}

fn session_ids(sessions: &Vec<ListedSession>) -> (ids: Vec<String>)
    ensures
        ids.deep_view().to_set() == listed_ids(sessions.deep_view()),
        ids.deep_view().len() == sessions@.len(),
        forall|i: int|
            0 <= i < sessions@.len() ==> #[trigger] ids.deep_view()[i] == sessions@[i].id@,
{
    let mut ids: Vec<String> = Vec::new();
    let mut i: usize = 0;
    while i < sessions.len()
        invariant
            i <= sessions@.len(),
            ids@.len() == i,
            forall|k: int| 0 <= k < i ==> (#[trigger] ids@[k])@ == sessions@[k].id@,
        decreases sessions@.len() - i,
    {
        ids.push(sessions[i].id.duplicate());
        i += 1;
    }
    proof {
        let models = ids.deep_view();
        let listed = sessions.deep_view();
        assert forall|id: Seq<char>| models.to_set().contains(id) == listed_ids(listed).contains(
            id,
        ) by {
            if models.contains(id) {
                let k = choose|k: int| 0 <= k < models.len() && models[k] == id;
                assert(listed[k].0 == id);
            }
            if listed_ids(listed).contains(id) {
                let k = choose|k: int| 0 <= k < listed.len() && (#[trigger] listed[k]).0 == id;
                assert(models[k] == id);
            }
        }
        assert(models.to_set() =~= listed_ids(listed));
    }
    ids
}

/// Whether this is the outcome of the database.
pub fn is_outcome(
    outcomes: &TextMap<DatabaseOutcome>,
    path: &String,
    outcome: DatabaseOutcome,
) -> (result: bool)
    ensures
        result == has_outcome(outcomes.deep_view(), path@, outcome),
{
    match outcomes.get(path) {
        Some(found) => *found == outcome,
        None => false,
    }
}

/// Decides who owns which session. `classified` holds the outcome of every database on record.
pub fn resolve_owners(
    previous: &TextMap<OpencodeDatabaseState>,
    classified: &TextMap<DatabaseOutcome>,
    ready: &Vec<ReadyDatabase>,
) -> (owners: TextMap<String>)
    ensures
        owners.deep_view() == session_owners(
            previous.keys(),
            previous.values(),
            classified.deep_view(),
            ready.deep_view(),
        ),
{
    let ghost keys = previous.keys();
    let ghost values = previous.values();
    let count = previous.len();
    let mut owners: TextMap<String> = SortedMap::new();
    let mut i: usize = 0;
    while i < count
        invariant
            i <= count,
            count == keys.len(),
            count == values.len(),
            keys == previous.keys(),
            values == previous.values(),
            owners.deep_view() == kept_owners(keys, values, classified.deep_view(), i as int),
        decreases count - i,
    {
        let path = previous.key_at(i);
        if is_outcome(classified, path, DatabaseOutcome::Failed) {
            let state = previous.value_at(i);
            let kept = state.owned_session_ids.list();
            claim_all(&mut owners, path, &kept);
        }
        i += 1;
    }
    let ghost base = owners.deep_view();
    let ghost models = ready.deep_view();
    let mut j: usize = 0;
    while j < ready.len()
        invariant
            j <= ready@.len(),
            models == ready.deep_view(),
            owners.deep_view() == owners_after(base, models, j as int),
        decreases ready@.len() - j,
    {
        let database = &ready[j];
        assert(models[j as int] == database.deep_view());
        let listed = session_ids(&database.sessions);
        claim_all(&mut owners, &database.path, &listed);
        j += 1;
    }
    owners
}

proof fn lemma_claims_are_kept(
    base: Map<Seq<char>, Seq<char>>,
    ready: Seq<ReadyModel>,
    n: int,
    session: Seq<char>,
)
    requires
        0 <= n <= ready.len(),
        base.contains_key(session),
    ensures
        owners_after(base, ready, n).contains_key(session),
        owners_after(base, ready, n)[session] == base[session],
    decreases n,
{
    if n > 0 {
        lemma_claims_are_kept(base, ready, n - 1, session);
    }
}

proof fn lemma_listed_is_owned(
    base: Map<Seq<char>, Seq<char>>,
    ready: Seq<ReadyModel>,
    n: int,
    i: int,
    session: Seq<char>,
)
    requires
        0 <= i < n <= ready.len(),
        listed_ids(ready[i].sessions).contains(session),
    ensures
        owners_after(base, ready, n).contains_key(session),
    decreases n,
{
    if i < n - 1 {
        lemma_listed_is_owned(base, ready, n - 1, i, session);
    }
}

proof fn lemma_kept_is_owned(
    keys: Seq<Seq<char>>,
    values: Seq<DatabaseModel>,
    classified: Map<Seq<char>, DatabaseOutcome>,
    n: int,
    i: int,
    session: Seq<char>,
)
    requires
        0 <= i < n <= keys.len(),
        keys.len() == values.len(),
        has_outcome(classified, keys[i], DatabaseOutcome::Failed),
        values[i].owned_session_ids.contains(session),
    ensures
        kept_owners(keys, values, classified, n).contains_key(session),
    decreases n,
{
    if i < n - 1 {
        lemma_kept_is_owned(keys, values, classified, n - 1, i, session);
    }
}

proof fn lemma_keeper_failed(
    keys: Seq<Seq<char>>,
    values: Seq<DatabaseModel>,
    classified: Map<Seq<char>, DatabaseOutcome>,
    n: int,
    session: Seq<char>,
)
    requires
        0 <= n <= keys.len(),
        keys.len() == values.len(),
        kept_owners(keys, values, classified, n).contains_key(session),
    ensures
        has_outcome(
            classified,
            kept_owners(keys, values, classified, n)[session],
            DatabaseOutcome::Failed,
        ),
    decreases n,
{
    if n > 0 {
        if kept_owners(keys, values, classified, n - 1).contains_key(session) {
            lemma_keeper_failed(keys, values, classified, n - 1, session);
        }
    }
}

/// A database that could not be read loses no session: whatever it owned stays with it or with
/// another one that could not be read, and no database that was read takes it over.
pub proof fn law_unreadable_databases_keep_their_sessions(
    keys: Seq<Seq<char>>,
    values: Seq<DatabaseModel>,
    classified: Map<Seq<char>, DatabaseOutcome>,
    ready: Seq<ReadyModel>,
    i: int,
    session: Seq<char>,
)
    requires
        keys.len() == values.len(),
        0 <= i < keys.len(),
        has_outcome(classified, keys[i], DatabaseOutcome::Failed),
        values[i].owned_session_ids.contains(session),
    ensures
        ({
            let owners = session_owners(keys, values, classified, ready);
            owners.contains_key(session) && has_outcome(
                classified,
                owners[session],
                DatabaseOutcome::Failed,
            )
        }),
{
    let count = keys.len() as int;
    let kept = kept_owners(keys, values, classified, count);
    lemma_kept_is_owned(keys, values, classified, count, i, session);
    lemma_keeper_failed(keys, values, classified, count, session);
    lemma_claims_are_kept(kept, ready, ready.len() as int, session);
}

/// Every session that a readable database lists has an owner.
pub proof fn law_listed_sessions_are_owned(
    keys: Seq<Seq<char>>,
    values: Seq<DatabaseModel>,
    classified: Map<Seq<char>, DatabaseOutcome>,
    ready: Seq<ReadyModel>,
    i: int,
    session: Seq<char>,
)
    requires
        0 <= i < ready.len(),
        listed_ids(ready[i].sessions).contains(session),
    ensures
        session_owners(keys, values, classified, ready).contains_key(session),
{
    lemma_listed_is_owned(
        kept_owners(keys, values, classified, keys.len() as int),
        ready,
        ready.len() as int,
        i,
        session,
    );
}

/// The database at this position could not be read, and owned the session.
spec fn keeps(
    keys: Seq<Seq<char>>,
    values: Seq<DatabaseModel>,
    classified: Map<Seq<char>, DatabaseOutcome>,
    session: Seq<char>,
    i: int,
) -> bool {
    0 <= i < keys.len() && classified.contains_key(keys[i]) && classified[keys[i]]
        == DatabaseOutcome::Failed && values[i].owned_session_ids.contains(session)
}

proof fn lemma_first_keeper(
    keys: Seq<Seq<char>>,
    values: Seq<DatabaseModel>,
    classified: Map<Seq<char>, DatabaseOutcome>,
    n: int,
    session: Seq<char>,
    i: int,
)
    requires
        0 <= n <= keys.len(),
        keys.len() == values.len(),
        forall|j: int| 0 <= j < i && j < n ==> !keeps(keys, values, classified, session, j),
        i < n ==> keeps(keys, values, classified, session, i),
    ensures
        ({
            let kept = kept_owners(keys, values, classified, n);
            if i < n {
                kept.contains_key(session) && kept[session] == keys[i]
            } else {
                !kept.contains_key(session)
            }
        }),
    decreases n,
{
    if n > 0 {
        lemma_first_keeper(keys, values, classified, n - 1, session, i);
        if i != n - 1 && i >= n {
            assert(!keeps(keys, values, classified, session, n - 1));
        }
    }
}

proof fn lemma_first_claimant(
    base: Map<Seq<char>, Seq<char>>,
    ready: Seq<ReadyModel>,
    n: int,
    session: Seq<char>,
)
    requires
        0 <= n <= ready.len(),
    ensures
        ({
            let owners = owners_after(base, ready, n);
            &&& base.contains_key(session) ==> owners.contains_key(session) && owners[session]
                == base[session]
            &&& !base.contains_key(session) ==> forall|i: int|
                #![trigger ready[i]]
                0 <= i < n && lists(ready[i], session) && (forall|j: int|
                    #![trigger ready[j]]
                    0 <= j < i ==> !lists(ready[j], session)) ==> owners.contains_key(session)
                    && owners[session] == ready[i].path
            &&& !base.contains_key(session) && (forall|i: int|
                #![trigger ready[i]]
                0 <= i < n ==> !lists(ready[i], session)) ==> !owners.contains_key(session)
        }),
    decreases n,
{
    if n > 0 {
        lemma_first_claimant(base, ready, n - 1, session);
        let owners = owners_after(base, ready, n);
        assert(listed_ids(ready[n - 1].sessions).contains(session) == lists(ready[n - 1], session));
        if !base.contains_key(session) {
            assert forall|i: int|
                #![trigger ready[i]]
                0 <= i < n && lists(ready[i], session) && (forall|j: int|
                    #![trigger ready[j]]
                    0 <= j < i ==> !lists(ready[j], session)) implies owners.contains_key(session)
                && owners[session] == ready[i].path by {
                if i == n - 1 {
                    assert(!owners_after(base, ready, n - 1).contains_key(session));
                }
            }
        }
    }
}

/// The database lists the session.
spec fn lists(database: ReadyModel, session: Seq<char>) -> bool {
    exists|k: int| 0 <= k < database.sessions.len() && (#[trigger] database.sessions[k]).0 == session
}

/// Who owns a session. A database that could not be read keeps the sessions that it owned, and
/// the first one on record comes first. Only what none of them owned goes to the first database
/// that was read and lists it. What no such database owned or lists has no owner.
pub proof fn law_first_claim_owns_the_session(
    keys: Seq<Seq<char>>,
    values: Seq<DatabaseModel>,
    classified: Map<Seq<char>, DatabaseOutcome>,
    ready: Seq<ReadyModel>,
    session: Seq<char>,
)
    requires
        keys.len() == values.len(),
    ensures
        ({
            let owners = session_owners(keys, values, classified, ready);
            let kept = |i: int|
                0 <= i < keys.len() && classified.contains_key(keys[i]) && classified[keys[i]]
                    == DatabaseOutcome::Failed && values[i].owned_session_ids.contains(session);
            let listed = |i: int|
                0 <= i < ready.len() && exists|k: int|
                    0 <= k < ready[i].sessions.len() && (#[trigger] ready[i].sessions[k]).0
                        == session;
            &&& forall|i: int| #[trigger]
                kept(i) && (forall|j: int| j < i ==> !#[trigger] kept(j)) ==> owners.contains_key(
                    session,
                ) && owners[session] == keys[i]
            &&& (forall|i: int| !#[trigger] kept(i)) ==> forall|i: int| #[trigger]
                listed(i) && (forall|j: int| j < i ==> !#[trigger] listed(j))
                    ==> owners.contains_key(session) && owners[session] == ready[i].path
            &&& (forall|i: int| !#[trigger] kept(i)) && (forall|i: int| !#[trigger] listed(i))
                ==> !owners.contains_key(session)
        }),
{
    let count = keys.len() as int;
    let base = kept_owners(keys, values, classified, count);
    lemma_first_claimant(base, ready, ready.len() as int, session);
    let owners = session_owners(keys, values, classified, ready);
    let kept = |i: int|
        0 <= i < keys.len() && classified.contains_key(keys[i]) && classified[keys[i]]
            == DatabaseOutcome::Failed && values[i].owned_session_ids.contains(session);
    let listed = |i: int|
        0 <= i < ready.len() && exists|k: int|
            0 <= k < ready[i].sessions.len() && (#[trigger] ready[i].sessions[k]).0 == session;
    assert forall|i: int| #[trigger]
        kept(i) && (forall|j: int| j < i ==> !#[trigger] kept(j)) implies owners.contains_key(
        session,
    ) && owners[session] == keys[i] by {
        assert forall|j: int| 0 <= j < i && j < count implies !keeps(
            keys,
            values,
            classified,
            session,
            j,
        ) by {
            assert(!kept(j));
        }
        lemma_first_keeper(keys, values, classified, count, session, i);
    }
    if forall|i: int| !#[trigger] kept(i) {
        assert forall|j: int| 0 <= j < count implies !keeps(
            keys,
            values,
            classified,
            session,
            j,
        ) by {
            assert(!kept(j));
        }
        lemma_first_keeper(keys, values, classified, count, session, count);
        assert(!base.contains_key(session));
        assert forall|i: int| #[trigger]
            listed(i) && (forall|j: int| j < i ==> !#[trigger] listed(j)) implies owners.contains_key(
            session,
        ) && owners[session] == ready[i].path by {
            assert forall|j: int| #![trigger ready[j]] 0 <= j < i implies !lists(
                ready[j],
                session,
            ) by {
                assert(!listed(j));
            }
            assert(lists(ready[i], session));
        }
        if forall|i: int| !#[trigger] listed(i) {
            assert forall|i: int| #![trigger ready[i]] 0 <= i < ready.len() implies !lists(
                ready[i],
                session,
            ) by {
                assert(!listed(i));
            }
        }
    }
}

/// What a look at a database file leads to. One that is there is counted with its size and is
/// read. One that is not, or that cannot be looked at, is passed over as failed by a full scan,
/// while a scan of reported changes gives way to a full one or fails.
pub proof fn law_looked_up_databases_are_counted(
    before: ScanState,
    key: Seq<char>,
    other: Seq<char>,
    stat: DatabaseStat,
    full_scan: bool,
)
    ensures
        ({
            let after = before.after_stat(key, stat, full_scan);
            let step = stat_step(stat, full_scan);
            &&& after.discovered.contains(other) <==> other == key || before.discovered.contains(
                other,
            )
            &&& other != key ==> after.outcomes.contains_key(other) == before.outcomes.contains_key(
                other,
            ) && after.outcomes[other] == before.outcomes[other]
            &&& match stat {
                DatabaseStat::Present(size) => step == DatabaseStep::Proceed && after.outcomes
                    == before.outcomes && after.files_scanned == before.files_scanned + 1
                    && after.files_skipped == before.files_skipped && after.total_bytes
                    == before.total_bytes + size,
                DatabaseStat::Missing | DatabaseStat::Failed => {
                    &&& after.files_scanned == before.files_scanned
                    &&& after.total_bytes == before.total_bytes
                    &&& full_scan ==> step == DatabaseStep::Skip && after.outcomes.contains_key(key)
                        && after.outcomes[key] == DatabaseOutcome::Failed && after.files_skipped
                        == before.files_skipped + 1
                    &&& !full_scan ==> after.outcomes == before.outcomes && after.files_skipped
                        == before.files_skipped
                    &&& !full_scan && stat == DatabaseStat::Missing ==> step == DatabaseStep::Resync
                    &&& !full_scan && stat == DatabaseStat::Failed ==> step == DatabaseStep::Fail
                },
            }
        }),
{
}

/// What reading a database leads to. A full scan goes on with what could be read and passes
/// over the rest. A scan of reported changes fails on what could not be read, and gives way to a
/// full scan where the database lists other sessions than it owned.
pub proof fn law_read_databases_proceed(
    before: ScanState,
    key: Seq<char>,
    other: Seq<char>,
    reached: DatabaseOutcome,
    sessions: Option<Set<Seq<char>>>,
    previous: Option<Set<Seq<char>>>,
    succeeded: bool,
    full_scan: bool,
)
    ensures
        ({
            let scanned = scan_step(sessions, previous, full_scan);
            let hydrated = hydration_step(succeeded, full_scan);
            let step = if succeeded {
                scanned
            } else {
                hydrated
            };
            let after = before.after_read(key, reached, step);
            &&& (scanned == DatabaseStep::Proceed) <==> sessions is Some && (full_scan || (
            previous is Some && forall|id: Seq<char>| #[trigger]
                previous.unwrap().contains(id) == sessions.unwrap().contains(id)))
            &&& (scanned == DatabaseStep::Skip) <==> sessions is None && full_scan
            &&& (scanned == DatabaseStep::Fail) <==> sessions is None && !full_scan
            &&& (hydrated == DatabaseStep::Proceed) <==> succeeded
            &&& (hydrated == DatabaseStep::Skip) <==> !succeeded && full_scan
            &&& (hydrated == DatabaseStep::Fail) <==> !succeeded && !full_scan
            &&& step == DatabaseStep::Proceed ==> after.outcomes.contains_key(key)
                && after.outcomes[key] == reached && after.files_skipped == before.files_skipped
            &&& step == DatabaseStep::Skip ==> after.outcomes.contains_key(key)
                && after.outcomes[key] == DatabaseOutcome::Failed && after.files_skipped
                == before.files_skipped + 1
            &&& step == DatabaseStep::Resync || step == DatabaseStep::Fail ==> after == before
            &&& other != key ==> after.outcomes.contains_key(other) == before.outcomes.contains_key(
                other,
            ) && after.outcomes[other] == before.outcomes[other]
            &&& after.discovered == before.discovered && after.files_scanned == before.files_scanned
                && after.total_bytes == before.total_bytes
        }),
{
    if sessions is Some && previous is Some && forall|id: Seq<char>| #[trigger]
        previous.unwrap().contains(id) == sessions.unwrap().contains(id) {
        assert(previous.unwrap() =~= sessions.unwrap());
    }
}

/// A pending session is fetched with the database that it is pending in, and with no other.
pub proof fn law_pending_sessions_stay_with_their_database(
    scopes: Seq<(Seq<char>, Seq<char>)>,
    path: Seq<char>,
    session: Seq<char>,
)
    ensures
        sessions_of(scopes, path).contains(session) <==> exists|i: int|
            0 <= i < scopes.len() && (#[trigger] scopes[i]).0 == path && scopes[i].1 == session,
{
    if scopes.contains((path, session)) {
        let i = choose|i: int| 0 <= i < scopes.len() && scopes[i] == (path, session);
        assert(scopes[i].0 == path);
    }
    if exists|i: int| 0 <= i < scopes.len() && (#[trigger] scopes[i]).0 == path && scopes[i].1
        == session {
        let i = choose|i: int|
            0 <= i < scopes.len() && (#[trigger] scopes[i]).0 == path && scopes[i].1 == session;
        assert(scopes[i] == (path, session));
    }
}

} // verus!
