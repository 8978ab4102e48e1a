//! What follows from the owners of the sessions: the sessions to write again or remove, the
//! database states to record, and the single-file transcripts that a database supersedes.

use vstd::prelude::*;
use vstd::utf8::{encode_utf8, valid_utf8};
use crate::keys::{lemma_text_bytes_injective, TextMap, TextSet};
use crate::model::Modeled;
use crate::opencode::{
    has_outcome, is_outcome, listed_ids, DatabaseOutcome, ReadyDatabase, ReadyModel,
    SessionScope,
};
use crate::outside::{decode_lossy, decode_utf8, lossy_text};
use crate::path::{last_name, FilePath};
use crate::sorted::{increasing, lemma_take_members, SortedMap, SortedSet};
use crate::state::{DatabaseModel, FileState, OpencodeDatabaseState};

verus! {

/// The database owns the session.
pub open spec fn owns(
    owners: Map<Seq<char>, Seq<char>>,
    path: Seq<char>,
    session: Seq<char>,
) -> bool {
    owners.contains_key(session) && owners[session] == path
}

/// Whether the database owns the session.
pub fn is_owner(owners: &TextMap<String>, path: &String, session: &String) -> (result: bool)
    ensures
        result == owns(owners.deep_view(), path@, session@),
{
    match owners.get(session) {
        Some(owner) => owner.same(path),
        None => false,
    }
}

/// The sessions that a readable database owned before and does not own any more.
pub open spec fn moved_scopes(
    previous: Map<Seq<char>, DatabaseModel>,
    classified: Map<Seq<char>, DatabaseOutcome>,
    owners: Map<Seq<char>, Seq<char>>,
) -> Set<(Seq<char>, Seq<char>)> {
    Set::new(
        |scope: (Seq<char>, Seq<char>)|
            previous.contains_key(scope.0) && has_outcome(
                classified,
                scope.0,
                DatabaseOutcome::Ready,
            ) && previous[scope.0].owned_session_ids.contains(scope.1) && !owns(
                owners,
                scope.0,
                scope.1,
            ),
    )
}

/// The changed sessions of the first `n` readable databases, as far as they own them.
pub open spec fn dirty_scopes(
    ready: Seq<ReadyModel>,
    owners: Map<Seq<char>, Seq<char>>,
    n: int,
) -> Set<(Seq<char>, Seq<char>)>
    decreases n,
{
    if n <= 0 {
        Set::empty()
    } else {
        dirty_scopes(ready, owners, n - 1).union(
            owned_scopes(ready[n - 1].path, ready[n - 1].dirty.to_set(), owners),
        )
    }
}

/// The sessions among these that the database owns.
pub open spec fn owned_scopes(
    path: Seq<char>,
    sessions: Set<Seq<char>>,
    owners: Map<Seq<char>, Seq<char>>,
) -> Set<(Seq<char>, Seq<char>)> {
    Set::new(
        |scope: (Seq<char>, Seq<char>)|
            scope.0 == path && sessions.contains(scope.1) && owns(owners, path, scope.1),
    )
}

/// The pending sessions of databases that were read.
pub open spec fn recovered_scopes(
    pending: Seq<(Seq<char>, Seq<char>)>,
    outcomes: Map<Seq<char>, DatabaseOutcome>,
) -> Set<(Seq<char>, Seq<char>)> {
    Set::new(
        |scope: (Seq<char>, Seq<char>)|
            pending.contains(scope) && has_outcome(outcomes, scope.0, DatabaseOutcome::Ready),
    )
}

/// The sessions whose records are replaced: those that moved away from a readable database,
/// those that changed where they belong, and the pending ones of databases that were read.
pub open spec fn target_scopes(
    previous: Map<Seq<char>, DatabaseModel>,
    classified: Map<Seq<char>, DatabaseOutcome>,
    outcomes: Map<Seq<char>, DatabaseOutcome>,
    owners: Map<Seq<char>, Seq<char>>,
    ready: Seq<ReadyModel>,
    pending: Option<Seq<(Seq<char>, Seq<char>)>>,
) -> Set<(Seq<char>, Seq<char>)> {
    moved_scopes(previous, classified, owners).union(
        dirty_scopes(ready, owners, ready.len() as int),
    ).union(
        match pending {
            Some(scopes) => recovered_scopes(scopes, outcomes),
            None => Set::empty(),
        },
    )
}

/// The databases on record that are known to be gone.
pub open spec fn absent_databases(
    previous: Map<Seq<char>, DatabaseModel>,
    classified: Map<Seq<char>, DatabaseOutcome>,
) -> Set<Seq<char>> {
    Set::new(
        |path: Seq<char>|
            previous.contains_key(path) && has_outcome(
                classified,
                path,
                DatabaseOutcome::ConfirmedAbsent,
            ),
    )
}

fn add_unowned(
    targets: &mut SortedSet<SessionScope>,
    path: &String,
    sessions: &TextSet,
    owners: &TextMap<String>,
)
    ensures
        final(targets).deep_view() == old(targets).deep_view().union(
            Set::new(
                |scope: (Seq<char>, Seq<char>)|
                    scope.0 == path@ && sessions.deep_view().contains(scope.1) && !owns(
                        owners.deep_view(),
                        path@,
                        scope.1,
                    ),
            ),
        ),
{
    let ghost before = targets.deep_view();
    let ghost ids = sessions.items();
    let ghost owned = owners.deep_view();
    let ghost p = path@;
    let count = sessions.len();
    let mut i: usize = 0;
    assert(targets.deep_view() =~= before.union(unowned(p, ids.take(0).to_set(), owned)));
    while i < count
        invariant
            i <= count,
            count == ids.len(),
            ids == sessions.items(),
            owned == owners.deep_view(),
            p == path@,
            targets.deep_view() == before.union(unowned(p, ids.take(i as int).to_set(), owned)),
        decreases count - i,
    {
        let session = sessions.at(i);
        if !is_owner(owners, path, session) {
            targets.insert(
                SessionScope { source_path: path.duplicate(), session_id: session.duplicate() },
            );
        }
        proof {
            lemma_take_members(ids, i as int);
            assert(targets.deep_view() =~= before.union(
                unowned(p, ids.take(i + 1).to_set(), owned),
            ));
        }
        i += 1;
    }
    assert(ids.take(i as int) =~= ids);
    assert(targets.deep_view() =~= before.union(
        Set::new(
            |scope: (Seq<char>, Seq<char>)|
                scope.0 == path@ && sessions.deep_view().contains(scope.1) && !owns(
                    owners.deep_view(),
                    path@,
                    scope.1,
                ),
        ),
    ));
}

spec fn unowned(
    path: Seq<char>,
    sessions: Set<Seq<char>>,
    owners: Map<Seq<char>, Seq<char>>,
) -> Set<(Seq<char>, Seq<char>)> {
    Set::new(
        |scope: (Seq<char>, Seq<char>)|
            scope.0 == path && sessions.contains(scope.1) && !owns(owners, path, scope.1),
    )
}

fn add_owned(
    targets: &mut SortedSet<SessionScope>,
    path: &String,
    sessions: &Vec<String>,
    owners: &TextMap<String>,
)
    ensures
        final(targets).deep_view() == old(targets).deep_view().union(
            owned_scopes(path@, sessions.deep_view().to_set(), owners.deep_view()),
        ),
{
    let ghost before = targets.deep_view();
    let ghost ids = sessions.deep_view();
    let ghost owned = owners.deep_view();
    let ghost p = path@;
    let mut i: usize = 0;
    assert(targets.deep_view() =~= before.union(owned_scopes(p, ids.take(0).to_set(), owned)));
    while i < sessions.len()
        invariant
            i <= sessions@.len(),
            ids == sessions.deep_view(),
            owned == owners.deep_view(),
            p == path@,
            targets.deep_view() == before.union(
                owned_scopes(p, ids.take(i as int).to_set(), owned),
            ),
        decreases sessions@.len() - i,
    {
        let session = &sessions[i];
        assert(ids[i as int] == session@);
        if is_owner(owners, path, session) {
            targets.insert(
                SessionScope { source_path: path.duplicate(), session_id: session.duplicate() },
            );
        }
        proof {
            lemma_take_members(ids, i as int);
            assert(targets.deep_view() =~= before.union(
                owned_scopes(p, ids.take(i + 1).to_set(), owned),
            ));
        }
        i += 1;
    }
    assert(ids.take(i as int) =~= ids);
}

fn add_recovered(
    targets: &mut SortedSet<SessionScope>,
    pending: &Vec<SessionScope>,
    outcomes: &TextMap<DatabaseOutcome>,
)
    ensures
        final(targets).deep_view() == old(targets).deep_view().union(
            recovered_scopes(pending.deep_view(), outcomes.deep_view()),
        ),
{
    let ghost before = targets.deep_view();
    let ghost scopes = pending.deep_view();
    let ghost known = outcomes.deep_view();
    let mut i: usize = 0;
    assert(targets.deep_view() =~= before.union(recovered_scopes(scopes.take(0), known)));
    while i < pending.len()
        invariant
            i <= pending@.len(),
            scopes == pending.deep_view(),
            known == outcomes.deep_view(),
            targets.deep_view() == before.union(recovered_scopes(scopes.take(i as int), known)),
        decreases pending@.len() - i,
    {
        let scope = &pending[i];
        assert(scopes[i as int] == scope.deep_view());
        if is_outcome(outcomes, &scope.source_path, DatabaseOutcome::Ready) {
            targets.insert(scope.duplicate());
        }
        proof {
            let shorter = scopes.take(i as int);
            let longer = scopes.take(i + 1);
            lemma_take_members(scopes, i as int);
            assert forall|s: (Seq<char>, Seq<char>)| #[trigger] longer.contains(s) == (
            shorter.contains(s) || s == scopes[i as int]) by {
                assert(longer.to_set().contains(s) == shorter.to_set().insert(
                    scopes[i as int],
                ).contains(s));
            }
            assert(targets.deep_view() =~= before.union(recovered_scopes(longer, known)));
        }
        i += 1;
    }
    assert(scopes.take(i as int) =~= scopes);
}

/// The sessions whose records are replaced, sorted by source and session, each once.
pub fn plan_targets(
    previous: &TextMap<OpencodeDatabaseState>,
    classified: &TextMap<DatabaseOutcome>,
    outcomes: &TextMap<DatabaseOutcome>,
    owners: &TextMap<String>,
    ready: &Vec<ReadyDatabase>,
    pending: Option<&Vec<SessionScope>>,
) -> (targets: Vec<SessionScope>)
    ensures
        increasing::<SessionScope>(targets.deep_view()),
        targets.deep_view().to_set() == target_scopes(
            previous.deep_view(),
            classified.deep_view(),
            outcomes.deep_view(),
            owners.deep_view(),
            ready.deep_view(),
            pending.deep_view(),
        ),
{
    let ghost before = previous.deep_view();
    let ghost classes = classified.deep_view();
    let ghost owned = owners.deep_view();
    let ghost keys = previous.keys();
    let ghost moved = moved_scopes(before, classes, owned);
    let mut targets: SortedSet<SessionScope> = SortedSet::new();
    let count = previous.len();
    let mut i: usize = 0;
    assert(targets.deep_view() =~= moved.filter(
        |scope: (Seq<char>, Seq<char>)| keys.take(0).to_set().contains(scope.0),
    ));
    while i < count
        invariant
            i <= count,
            count == keys.len(),
            keys == previous.keys(),
            before == previous.deep_view(),
            before.dom() == keys.to_set(),
            classes == classified.deep_view(),
            owned == owners.deep_view(),
            moved == moved_scopes(before, classes, owned),
            targets.deep_view() == moved.filter(
                |scope: (Seq<char>, Seq<char>)| keys.take(i as int).to_set().contains(scope.0),
            ),
        decreases count - i,
    {
        let path = previous.key_at(i);
        if is_outcome(classified, path, DatabaseOutcome::Ready) {
            let state = previous.value_at(i);
            add_unowned(&mut targets, path, &state.owned_session_ids, owners);
        }
        proof {
            lemma_take_members(keys, i as int);
            assert(targets.deep_view() =~= moved.filter(
                |scope: (Seq<char>, Seq<char>)| keys.take(i + 1).to_set().contains(scope.0),
            ));
        }
        i += 1;
    }
    assert(keys.take(i as int) =~= keys);
    assert(targets.deep_view() =~= moved);
    let ghost models = ready.deep_view();
    let mut j: usize = 0;
    assert(moved.union(dirty_scopes(models, owned, 0)) =~= moved);
    while j < ready.len()
        invariant
            j <= ready@.len(),
            models == ready.deep_view(),
            owned == owners.deep_view(),
            targets.deep_view() == moved.union(dirty_scopes(models, owned, j as int)),
        decreases ready@.len() - j,
    {
        let database = &ready[j];
        assert(models[j as int] == database.deep_view());
        add_owned(&mut targets, &database.path, &database.dirty_session_ids, owners);
        assert(targets.deep_view() =~= moved.union(dirty_scopes(models, owned, j + 1)));
        j += 1;
    }
    match pending {
        Some(scopes) => {
            add_recovered(&mut targets, scopes, outcomes);
        },
        None => {},
    }
    proof {
        if pending is None {
            assert(targets.deep_view() =~= targets.deep_view().union(Set::empty()));
        }
    }
    targets.list()
}

/// The databases on record that are known to be gone, sorted.
pub fn plan_database_deletes(
    previous: &TextMap<OpencodeDatabaseState>,
    classified: &TextMap<DatabaseOutcome>,
) -> (paths: Vec<String>)
    ensures
        increasing::<String>(paths.deep_view()),
        paths.deep_view().to_set() == absent_databases(
            previous.deep_view(),
            classified.deep_view(),
        ),
{
    let ghost model = previous.deep_view();
    let ghost classes = classified.deep_view();
    let ghost keys = previous.keys();
    let ghost wanted = absent_databases(model, classes);
    let mut paths: TextSet = SortedSet::new();
    let count = previous.len();
    let mut i: usize = 0;
    assert(paths.deep_view() =~= wanted.intersect(keys.take(0).to_set()));
    while i < count
        invariant
            i <= count,
            count == keys.len(),
            keys == previous.keys(),
            model == previous.deep_view(),
            model.dom() == keys.to_set(),
            classes == classified.deep_view(),
            wanted == absent_databases(model, classes),
            paths.deep_view() == wanted.intersect(keys.take(i as int).to_set()),
        decreases count - i,
    {
        let path = previous.key_at(i);
        if is_outcome(classified, path, DatabaseOutcome::ConfirmedAbsent) {
            paths.insert(path.duplicate());
        }
        proof {
            lemma_take_members(keys, i as int);
            assert(paths.deep_view() =~= wanted.intersect(keys.take(i + 1).to_set()));
        }
        i += 1;
    }
    assert(keys.take(i as int) =~= keys);
    assert(wanted.intersect(keys.to_set()) =~= wanted);
    paths.list()
}

/// The sessions that a database lists and owns.
pub open spec fn owned_listed(
    database: ReadyModel,
    owners: Map<Seq<char>, Seq<char>>,
) -> Set<Seq<char>> {
    Set::new(
        |id: Seq<char>| listed_ids(database.sessions).contains(id) && owns(owners, database.path, id),
    )
}

/// The state to record for a database that was read.
pub open spec fn recorded_state(
    database: ReadyModel,
    owners: Map<Seq<char>, Seq<char>>,
    version: u32,
) -> DatabaseModel {
    DatabaseModel {
        parser_version: version,
        event_rowid: database.event_rowid,
        event_id: database.event_id,
        owned_session_ids: owned_listed(database, owners),
    }
}

/// The states to record for the first `n` databases.
pub open spec fn recorded_states(
    ready: Seq<ReadyModel>,
    owners: Map<Seq<char>, Seq<char>>,
    version: u32,
    n: int,
) -> Map<Seq<char>, DatabaseModel>
    decreases n,
{
    if n <= 0 {
        Map::empty()
    } else {
        recorded_states(ready, owners, version, n - 1).insert(
            ready[n - 1].path,
            recorded_state(ready[n - 1], owners, version),
        )
    }
}

/// The directories of the first `n` listed sessions, as far as the database owns them, put
/// into `before`.
pub open spec fn session_directories(
    before: Map<(Seq<char>, Seq<char>), Seq<char>>,
    path: Seq<char>,
    sessions: Seq<(Seq<char>, Seq<char>)>,
    owners: Map<Seq<char>, Seq<char>>,
    n: int,
) -> Map<(Seq<char>, Seq<char>), Seq<char>>
    decreases n,
{
    if n <= 0 {
        before
    } else {
        let rest = session_directories(before, path, sessions, owners, n - 1);
        let session = sessions[n - 1];
        if owns(owners, path, session.0) {
            rest.insert((path, session.0), session.1)
        } else {
            rest
        }
    }
}

/// The directories of the owned sessions of the first `n` databases.
pub open spec fn directories_upto(
    ready: Seq<ReadyModel>,
    owners: Map<Seq<char>, Seq<char>>,
    n: int,
) -> Map<(Seq<char>, Seq<char>), Seq<char>>
    decreases n,
{
    if n <= 0 {
        Map::empty()
    } else {
        session_directories(
            directories_upto(ready, owners, n - 1),
            ready[n - 1].path,
            ready[n - 1].sessions,
            owners,
            ready[n - 1].sessions.len() as int,
        )
    }
}

fn owned_sessions(database: &ReadyDatabase, owners: &TextMap<String>) -> (owned: TextSet)
    ensures
        owned.deep_view() == owned_listed(database.deep_view(), owners.deep_view()),
{
    let ghost model = database.deep_view();
    let ghost sessions = model.sessions;
    let ghost held = owners.deep_view();
    let mut owned: TextSet = SortedSet::new();
    let mut i: usize = 0;
    while i < database.sessions.len()
        invariant
            i <= database.sessions@.len(),
            model == database.deep_view(),
            sessions == model.sessions,
            held == owners.deep_view(),
            forall|id: Seq<char>| #[trigger]
                owned.deep_view().contains(id) == (owns(held, model.path, id) && exists|k: int|
                    0 <= k < i && (#[trigger] sessions[k]).0 == id),
        decreases database.sessions@.len() - i,
    {
        let session = &database.sessions[i];
        assert(sessions[i as int] == session.deep_view());
        let ghost before = owned.deep_view();
        if is_owner(owners, &database.path, &session.id) {
            owned.insert(session.id.duplicate());
        }
        proof {
            assert forall|id: Seq<char>| #[trigger] owned.deep_view().contains(id) == (owns(
                held,
                model.path,
                id,
            ) && exists|k: int| 0 <= k < i + 1 && (#[trigger] sessions[k]).0 == id) by {
                if before.contains(id) {
                    let k = choose|k: int| 0 <= k < i && (#[trigger] sessions[k]).0 == id;
                    assert(sessions[k].0 == id);
                }
                if id == session.id@ {
                    assert(sessions[i as int].0 == id);
                }
                if owns(held, model.path, id) && exists|k: int|
                    0 <= k < i + 1 && (#[trigger] sessions[k]).0 == id {
                    let k = choose|k: int| 0 <= k < i + 1 && (#[trigger] sessions[k]).0 == id;
                    if k < i {
                        assert(before.contains(id));
                    }
                }
            }
        }
        i += 1;
    }
    assert(owned.deep_view() =~= owned_listed(model, held));
    owned
}

/// What to record for the databases that were read.
pub struct ReadyPlan {
    /// The sessions that each database owns.
    pub owned_sessions: TextMap<TextSet>,
    /// The working directory of each owned session.
    pub session_cwds: SortedMap<SessionScope, String>,
    /// The state to record for each database.
    pub database_states: TextMap<OpencodeDatabaseState>,
}

/// The sessions that each of the first `n` databases owns.
pub open spec fn owned_upto(
    ready: Seq<ReadyModel>,
    owners: Map<Seq<char>, Seq<char>>,
    n: int,
) -> Map<Seq<char>, Set<Seq<char>>>
    decreases n,
{
    if n <= 0 {
        Map::empty()
    } else {
        owned_upto(ready, owners, n - 1).insert(
            ready[n - 1].path,
            owned_listed(ready[n - 1], owners),
        )
    }
}

/// Plans what to record for the databases that were read.
pub fn plan_ready(ready: &Vec<ReadyDatabase>, owners: &TextMap<String>, version: u32) -> (plan:
    ReadyPlan)
    ensures
        plan.owned_sessions.deep_view() == owned_upto(
            ready.deep_view(),
            owners.deep_view(),
            ready@.len() as int,
        ),
        plan.session_cwds.deep_view() == directories_upto(
            ready.deep_view(),
            owners.deep_view(),
            ready@.len() as int,
        ),
        plan.database_states.deep_view() == recorded_states(
            ready.deep_view(),
            owners.deep_view(),
            version,
            ready@.len() as int,
        ),
{
    let ghost models = ready.deep_view();
    let ghost held = owners.deep_view();
    let mut owned_by: TextMap<TextSet> = SortedMap::new();
    let mut session_cwds: SortedMap<SessionScope, String> = SortedMap::new();
    let mut database_states: TextMap<OpencodeDatabaseState> = SortedMap::new();
    let mut i: usize = 0;
    while i < ready.len()
        invariant
            i <= ready@.len(),
            models == ready.deep_view(),
            held == owners.deep_view(),
            owned_by.deep_view() == owned_upto(models, held, i as int),
            session_cwds.deep_view() == directories_upto(models, held, i as int),
            database_states.deep_view() == recorded_states(models, held, version, i as int),
        decreases ready@.len() - i,
    {
        let database = &ready[i];
        assert(models[i as int] == database.deep_view());
        let owned = owned_sessions(database, owners);
        add_directories(&mut session_cwds, database, owners);
        let state = OpencodeDatabaseState {
            parser_version: version,
            event_rowid: database.event_rowid,
            event_id: database.event_id.duplicate(),
            owned_session_ids: owned.duplicate(),
        };
        owned_by.insert(database.path.duplicate(), owned);
        database_states.insert(database.path.duplicate(), state);
        i += 1;
    }
    ReadyPlan { owned_sessions: owned_by, session_cwds, database_states }
}

fn add_directories(
    session_cwds: &mut SortedMap<SessionScope, String>,
    database: &ReadyDatabase,
    owners: &TextMap<String>,
)
    ensures
        final(session_cwds).deep_view() == session_directories(
            old(session_cwds).deep_view(),
            database.path@,
            database.deep_view().sessions,
            owners.deep_view(),
            database.deep_view().sessions.len() as int,
        ),
{
    let ghost before = session_cwds.deep_view();
    let ghost sessions = database.deep_view().sessions;
    let mut i: usize = 0;
    while i < database.sessions.len()
        invariant
            i <= database.sessions@.len(),
            sessions == database.deep_view().sessions,
            session_cwds.deep_view() == session_directories(
                before,
                database.path@,
                sessions,
                owners.deep_view(),
                i as int,
            ),
        decreases database.sessions@.len() - i,
    {
        let session = &database.sessions[i];
        assert(sessions[i as int] == session.deep_view());
        if is_owner(owners, &database.path, &session.id) {
            session_cwds.insert(
                SessionScope {
                    source_path: database.path.duplicate(),
                    session_id: session.id.duplicate(),
                },
                session.directory.duplicate(),
            );
        }
        i += 1;
    }
}

/// The pending scopes among the first `n` whose database could not be read.
pub open spec fn deferred_upto(
    pending: Seq<(Seq<char>, Seq<char>)>,
    classified: Map<Seq<char>, DatabaseOutcome>,
    n: int,
) -> Seq<(Seq<char>, Seq<char>)>
    decreases n,
{
    if n <= 0 {
        Seq::empty()
    } else {
        let rest = deferred_upto(pending, classified, n - 1);
        if has_outcome(classified, pending[n - 1].0, DatabaseOutcome::Failed) {
            rest.push(pending[n - 1])
        } else {
            rest
        }
    }
}

/// The pending scopes to leave for the next refresh.
pub open spec fn deferred_scopes(
    pending: Seq<(Seq<char>, Seq<char>)>,
    inspected: bool,
    classified: Map<Seq<char>, DatabaseOutcome>,
) -> Seq<(Seq<char>, Seq<char>)> {
    if inspected {
        deferred_upto(pending, classified, pending.len() as int)
    } else {
        pending
    }
}

/// The pending scopes to leave for the next refresh: those whose database could not be read,
/// or all of them where no database was looked at.
pub fn plan_deferred(
    pending: &Vec<SessionScope>,
    inspected: bool,
    classified: &TextMap<DatabaseOutcome>,
) -> (deferred: Vec<SessionScope>)
    ensures
        deferred.deep_view() == deferred_scopes(
            pending.deep_view(),
            inspected,
            classified.deep_view(),
        ),
        deferred.deep_view() == (if inspected {
            deferred_upto(pending.deep_view(), classified.deep_view(), pending@.len() as int)
        } else {
            pending.deep_view()
        }),
{
    if !inspected {
        return pending.duplicate();
    }
    let ghost scopes = pending.deep_view();
    let mut deferred: Vec<SessionScope> = Vec::new();
    let mut i: usize = 0;
    assert(deferred.deep_view() =~= Seq::empty());
    while i < pending.len()
        invariant
            i <= pending@.len(),
            scopes == pending.deep_view(),
            deferred.deep_view() == deferred_upto(scopes, classified.deep_view(), i as int),
        decreases pending@.len() - i,
    {
        let scope = &pending[i];
        assert(scopes[i as int] == scope.deep_view());
        if is_outcome(classified, &scope.source_path, DatabaseOutcome::Failed) {
            let ghost shorter = deferred.deep_view();
            deferred.push(scope.duplicate());
            assert(deferred.deep_view() =~= shorter.push(scopes[i as int]));
        }
        i += 1;
    }
    deferred
}

proof fn lemma_dirty_scopes_are_owned(
    ready: Seq<ReadyModel>,
    owners: Map<Seq<char>, Seq<char>>,
    n: int,
    scope: (Seq<char>, Seq<char>),
)
    requires
        0 <= n <= ready.len(),
        dirty_scopes(ready, owners, n).contains(scope),
    ensures
        owns(owners, scope.0, scope.1),
    decreases n,
{
    if n > 0 {
        if dirty_scopes(ready, owners, n - 1).contains(scope) {
            lemma_dirty_scopes_are_owned(ready, owners, n - 1, scope);
        }
    }
}

/// Records are only replaced where that is safe: a session that is replaced without recovery
/// belongs to the database it is replaced in, or has left a database that was read. A session
/// of a database that could not be read is never touched.
pub proof fn law_targets_are_safe(
    previous: Map<Seq<char>, DatabaseModel>,
    classified: Map<Seq<char>, DatabaseOutcome>,
    outcomes: Map<Seq<char>, DatabaseOutcome>,
    owners: Map<Seq<char>, Seq<char>>,
    ready: Seq<ReadyModel>,
    scope: (Seq<char>, Seq<char>),
)
    requires
        target_scopes(previous, classified, outcomes, owners, ready, None).contains(scope),
    ensures
        owns(owners, scope.0, scope.1) || has_outcome(classified, scope.0, DatabaseOutcome::Ready),
        !owns(owners, scope.0, scope.1) ==> previous.contains_key(scope.0)
            && previous[scope.0].owned_session_ids.contains(scope.1),
{
    if dirty_scopes(ready, owners, ready.len() as int).contains(scope) {
        lemma_dirty_scopes_are_owned(ready, owners, ready.len() as int, scope);
    }
}

/// Recovery adds nothing but what it can restore: a session that is replaced only because an
/// interrupted refresh left it pending belongs to a database that was observed ready.
pub proof fn law_recovered_targets_are_ready(
    previous: Map<Seq<char>, DatabaseModel>,
    classified: Map<Seq<char>, DatabaseOutcome>,
    outcomes: Map<Seq<char>, DatabaseOutcome>,
    owners: Map<Seq<char>, Seq<char>>,
    ready: Seq<ReadyModel>,
    pending: Seq<(Seq<char>, Seq<char>)>,
    scope: (Seq<char>, Seq<char>),
)
    requires
        target_scopes(previous, classified, outcomes, owners, ready, Some(pending)).contains(scope),
    ensures
        target_scopes(previous, classified, outcomes, owners, ready, None).contains(scope) || (
        pending.contains(scope) && has_outcome(outcomes, scope.0, DatabaseOutcome::Ready)),
{
}

/// A session is never both deferred and replaced by recovery, as long as the outcome of a
/// database is the same wherever it is asked for.
pub proof fn law_pending_sessions_are_deferred_or_recovered(
    pending: Seq<(Seq<char>, Seq<char>)>,
    outcomes: Map<Seq<char>, DatabaseOutcome>,
    scope: (Seq<char>, Seq<char>),
    n: int,
)
    requires
        0 <= n <= pending.len(),
        recovered_scopes(pending, outcomes).contains(scope),
    ensures
        !deferred_upto(pending, outcomes, n).contains(scope),
    decreases n,
{
    if n > 0 {
        law_pending_sessions_are_deferred_or_recovered(pending, outcomes, scope, n - 1);
        let rest = deferred_upto(pending, outcomes, n - 1);
        if has_outcome(outcomes, pending[n - 1].0, DatabaseOutcome::Failed) {
            let longer = rest.push(pending[n - 1]);
            if longer.contains(scope) {
                let i = choose|i: int| 0 <= i < longer.len() && longer[i] == scope;
                if i < rest.len() {
                    assert(rest[i] == scope);
                }
            }
        }
    }
}

/// The session that a single-file transcript holds: its file name, if that is UTF-8.
pub open spec fn transcript_session(path: Seq<u8>) -> Option<Seq<u8>> {
    match last_name(crate::path::byte_parts(path)) {
        Some(name) => if valid_utf8(name) {
            Some(name)
        } else {
            None
        },
        None => None,
    }
}

/// The transcript holds a session that some database owns.
pub open spec fn superseded(path: Seq<u8>, owners: Map<Seq<char>, Seq<char>>) -> bool {
    transcript_session(path) matches Some(name) && exists|id: Seq<char>|
        #![trigger owners.contains_key(id)]
        owners.contains_key(id) && encode_utf8(id) == name
}

/// Whether the transcript holds a session that some database owns.
pub fn is_superseded(path: &FilePath, owners: &TextMap<String>) -> (result: bool)
    ensures
        result == superseded(path.spelling(), owners.deep_view()),
{
    match path.file_name() {
        None => false,
        Some(name) => match decode_utf8(name.as_slice()) {
            None => false,
            Some(session) => {
                let result = owners.contains_key(&session);
                proof {
                    if superseded(path.spelling(), owners.deep_view()) {
                        let id = choose|id: Seq<char>|
                            #![trigger owners.deep_view().contains_key(id)]
                            owners.deep_view().contains_key(id) && encode_utf8(id) == name@;
                        lemma_text_bytes_injective(id, session@);
                    }
                    if result {
                        assert(owners.deep_view().contains_key(session@));
                    }
                }
                result
            },
        },
    }
}

/// The session that a transcript counts for: its file name, or the empty text where that is
/// not UTF-8.
pub open spec fn counted_session(path: Seq<u8>) -> Seq<u8> {
    match transcript_session(path) {
        Some(name) => name,
        None => Seq::empty(),
    }
}

/// What to do with a single-file transcript.
#[derive(Clone, Copy, Debug, PartialEq, Eq, Structural)]
pub enum LegacyStep {
    /// It is excluded.
    Skip,
    /// A database holds its session.
    Supersede,
    /// It is inspected like any other file.
    Inspect,
}

/// The session that the transcript counts for has an owner.
pub open spec fn counted_owned(path: Seq<u8>, owners: Map<Seq<char>, Seq<char>>) -> bool {
    exists|id: Seq<char>|
        #![trigger owners.contains_key(id)]
        owners.contains_key(id) && encode_utf8(id) == counted_session(path)
}

/// What to do with a single-file transcript.
pub open spec fn legacy_decision(
    excluded: bool,
    path: Seq<u8>,
    owners: Map<Seq<char>, Seq<char>>,
) -> LegacyStep {
    if excluded {
        LegacyStep::Skip
    } else if counted_owned(path, owners) {
        LegacyStep::Supersede
    } else {
        LegacyStep::Inspect
    }
}

/// Decides what to do with a single-file transcript.
pub fn legacy_step(file: &LegacyFile, owners: &TextMap<String>) -> (step: LegacyStep)
    ensures
        step == legacy_decision(file.excluded, file.path.spelling(), owners.deep_view()),
        step == (if file.excluded {
            LegacyStep::Skip
        } else if counted_owned(file.path.spelling(), owners.deep_view()) {
            LegacyStep::Supersede
        } else {
            LegacyStep::Inspect
        }),
{
    if file.excluded {
        return LegacyStep::Skip;
    }
    let session = match file.path.file_name() {
        None => String::new(),
        Some(name) => match decode_utf8(name.as_slice()) {
            None => String::new(),
            Some(session) => session,
        },
    };
    let ghost held = owners.deep_view();
    let ghost path = file.path.spelling();
    proof {
        assert(encode_utf8(Seq::<char>::empty()) =~= Seq::empty());
        assert(encode_utf8(session@) == counted_session(path));
    }
    let owned = owners.contains_key(&session);
    proof {
        if counted_owned(path, held) {
            let id = choose|id: Seq<char>|
                #![trigger held.contains_key(id)]
                held.contains_key(id) && encode_utf8(id) == counted_session(path);
            lemma_text_bytes_injective(id, session@);
        }
        if owned {
            assert(held.contains_key(session@));
        }
    }
    if owned {
        LegacyStep::Supersede
    } else {
        LegacyStep::Inspect
    }
}

/// Drops the state of a transcript that a database supersedes, and schedules its records for
/// removal if it had a state or if records of it are left.
pub fn supersede(
    files: &mut TextMap<FileState>,
    deletes: &mut Vec<String>,
    path: &FilePath,
    recorded: &TextSet,
)
    ensures
        final(files).deep_view() == old(files).deep_view().remove(lossy_text(path.spelling())),
        final(deletes).deep_view() == (if old(files).deep_view().contains_key(
            lossy_text(path.spelling()),
        ) || recorded.deep_view().contains(lossy_text(path.spelling())) {
            old(deletes).deep_view().push(lossy_text(path.spelling()))
        } else {
            old(deletes).deep_view()
        }),
{
    let ghost before = deletes.deep_view();
    let key = decode_lossy(path.bytes().as_slice());
    let known = files.remove(&key).is_some();
    if known || recorded.contains(&key) {
        deletes.push(key);
        assert(deletes.deep_view() =~= before.push(key@));
    }
}

/// A single-file transcript, and whether it is excluded.
pub struct LegacyFile {
    pub path: FilePath,
    pub excluded: bool,
}

/// The keys of the first `n` transcripts whose records have to be looked for.
pub open spec fn candidates_upto(
    files: Seq<LegacyFile>,
    owners: Map<Seq<char>, Seq<char>>,
    n: int,
) -> Set<Seq<char>>
    decreases n,
{
    if n <= 0 {
        Set::empty()
    } else {
        let rest = candidates_upto(files, owners, n - 1);
        let file = files[n - 1];
        if !file.excluded && superseded(file.path.spelling(), owners) {
            rest.insert(lossy_text(file.path.spelling()))
        } else {
            rest
        }
    }
}

/// The keys of the transcripts whose records have to be looked for, because a database holds
/// their sessions.
pub fn legacy_candidates(files: &Vec<LegacyFile>, owners: &TextMap<String>) -> (keys: TextSet)
    ensures
        keys.deep_view() == candidates_upto(files@, owners.deep_view(), files@.len() as int),
{
    let mut keys: TextSet = SortedSet::new();
    let mut i: usize = 0;
    while i < files.len()
        invariant
            i <= files@.len(),
            keys.deep_view() == candidates_upto(files@, owners.deep_view(), i as int),
        decreases files@.len() - i,
    {
        let file = &files[i];
        if !file.excluded && is_superseded(&file.path, owners) {
            keys.insert(decode_lossy(file.path.bytes().as_slice()));
        }
        i += 1;
    }
    keys
}

proof fn lemma_dirty_scopes(
    ready: Seq<ReadyModel>,
    owners: Map<Seq<char>, Seq<char>>,
    n: int,
    scope: (Seq<char>, Seq<char>),
)
    requires
        0 <= n <= ready.len(),
    ensures
        dirty_scopes(ready, owners, n).contains(scope) <==> owners.contains_key(scope.1)
            && owners[scope.1] == scope.0 && exists|i: int|
            0 <= i < n && (#[trigger] ready[i]).path == scope.0 && ready[i].dirty.contains(scope.1),
    decreases n,
{
    if n > 0 {
        lemma_dirty_scopes(ready, owners, n - 1, scope);
        if ready[n - 1].path == scope.0 && ready[n - 1].dirty.contains(scope.1) {
            assert(ready[n - 1].dirty.to_set().contains(scope.1));
        }
    }
}

/// A session leaves the index with its database entry. For every database on record that was
/// read, a session that it owned before and that it does not own any more is a target: another
/// database owns it now, or nobody does because no database lists it any more.
pub proof fn law_sessions_that_left_are_targets(
    previous: Map<Seq<char>, DatabaseModel>,
    classified: Map<Seq<char>, DatabaseOutcome>,
    outcomes: Map<Seq<char>, DatabaseOutcome>,
    owners: Map<Seq<char>, Seq<char>>,
    ready: Seq<ReadyModel>,
    pending: Option<Seq<(Seq<char>, Seq<char>)>>,
    database: Seq<char>,
    session: Seq<char>,
)
    requires
        previous.contains_key(database),
        previous[database].owned_session_ids.contains(session),
        classified.contains_key(database),
        classified[database] == DatabaseOutcome::Ready,
    ensures
        ({
            let targets = target_scopes(previous, classified, outcomes, owners, ready, pending);
            &&& !owners.contains_key(session) ==> targets.contains((database, session))
            &&& owners.contains_key(session) && owners[session] != database ==> targets.contains(
                (database, session),
            )
        }),
{
}

/// A session that changed is written again in the database that owns it, and a session that an
/// interrupted refresh left pending is written again where its database was read.
pub proof fn law_changed_sessions_are_targets(
    previous: Map<Seq<char>, DatabaseModel>,
    classified: Map<Seq<char>, DatabaseOutcome>,
    outcomes: Map<Seq<char>, DatabaseOutcome>,
    owners: Map<Seq<char>, Seq<char>>,
    ready: Seq<ReadyModel>,
    pending: Option<Seq<(Seq<char>, Seq<char>)>>,
    database: Seq<char>,
    session: Seq<char>,
)
    ensures
        ({
            let targets = target_scopes(previous, classified, outcomes, owners, ready, pending);
            &&& forall|i: int|
                #![trigger ready[i]]
                0 <= i < ready.len() && ready[i].path == database && ready[i].dirty.contains(session)
                    && owners.contains_key(session) && owners[session] == database
                    ==> targets.contains((database, session))
            &&& pending is Some && pending.unwrap().contains((database, session))
                && outcomes.contains_key(database) && outcomes[database] == DatabaseOutcome::Ready
                ==> targets.contains((database, session))
        }),
{
    lemma_dirty_scopes(ready, owners, ready.len() as int, (database, session));
}

/// Nothing else is a target: a session is replaced in a database only because it left the
/// database, because it changed in the database that owns it, or because it is pending there.
pub proof fn law_targets_have_a_reason(
    previous: Map<Seq<char>, DatabaseModel>,
    classified: Map<Seq<char>, DatabaseOutcome>,
    outcomes: Map<Seq<char>, DatabaseOutcome>,
    owners: Map<Seq<char>, Seq<char>>,
    ready: Seq<ReadyModel>,
    pending: Option<Seq<(Seq<char>, Seq<char>)>>,
    database: Seq<char>,
    session: Seq<char>,
)
    requires
        target_scopes(previous, classified, outcomes, owners, ready, pending).contains(
            (database, session),
        ),
    ensures
        ({
            let owned = owners.contains_key(session) && owners[session] == database;
            ||| !owned && previous.contains_key(database)
                && previous[database].owned_session_ids.contains(session)
                && classified.contains_key(database) && classified[database]
                == DatabaseOutcome::Ready
            ||| owned && exists|i: int|
                0 <= i < ready.len() && (#[trigger] ready[i]).path == database
                    && ready[i].dirty.contains(session)
            ||| pending is Some && pending.unwrap().contains((database, session))
                && outcomes.contains_key(database) && outcomes[database] == DatabaseOutcome::Ready
        }),
{
    lemma_dirty_scopes(ready, owners, ready.len() as int, (database, session));
}

/// A database leaves the record exactly if it is on record and known to be gone. One that could
/// not be read stays.
pub proof fn law_only_absent_databases_are_deleted(
    previous: Map<Seq<char>, DatabaseModel>,
    classified: Map<Seq<char>, DatabaseOutcome>,
    path: Seq<char>,
)
    ensures
        absent_databases(previous, classified).contains(path) <==> previous.contains_key(path)
            && classified.contains_key(path) && classified[path]
            == DatabaseOutcome::ConfirmedAbsent,
{
}

proof fn lemma_ready_plan(
    ready: Seq<ReadyModel>,
    owners: Map<Seq<char>, Seq<char>>,
    version: u32,
    n: int,
    i: int,
)
    requires
        0 <= i < n <= ready.len(),
        forall|j: int| i < j < n ==> (#[trigger] ready[j]).path != ready[i].path,
    ensures
        owned_upto(ready, owners, n).contains_key(ready[i].path),
        owned_upto(ready, owners, n)[ready[i].path] == owned_listed(ready[i], owners),
        recorded_states(ready, owners, version, n).contains_key(ready[i].path),
        recorded_states(ready, owners, version, n)[ready[i].path] == recorded_state(
            ready[i],
            owners,
            version,
        ),
    decreases n,
{
    if i < n - 1 {
        lemma_ready_plan(ready, owners, version, n - 1, i);
        assert(ready[n - 1].path != ready[i].path);
    }
}

proof fn lemma_ready_plan_paths(
    ready: Seq<ReadyModel>,
    owners: Map<Seq<char>, Seq<char>>,
    version: u32,
    n: int,
    path: Seq<char>,
)
    requires
        0 <= n <= ready.len(),
        forall|i: int| 0 <= i < n ==> (#[trigger] ready[i]).path != path,
    ensures
        !owned_upto(ready, owners, n).contains_key(path),
        !recorded_states(ready, owners, version, n).contains_key(path),
    decreases n,
{
    if n > 0 {
        lemma_ready_plan_paths(ready, owners, version, n - 1, path);
        assert(ready[n - 1].path != path);
    }
}

/// What is recorded of a database that was read, the last one of a path where there are several:
/// where its events end, and the sessions that it lists and owns. No other path is recorded.
pub proof fn law_read_databases_are_recorded(
    ready: Seq<ReadyModel>,
    owners: Map<Seq<char>, Seq<char>>,
    version: u32,
    i: int,
    session: Seq<char>,
    path: Seq<char>,
)
    ensures
        ({
            let n = ready.len() as int;
            let owned = owned_upto(ready, owners, n);
            let states = recorded_states(ready, owners, version, n);
            &&& (0 <= i < n && forall|j: int| i < j < n ==> (#[trigger] ready[j]).path
                != ready[i].path) ==> {
                let at = ready[i].path;
                let belongs = owners.contains_key(session) && owners[session] == at
                    && exists|k: int|
                    0 <= k < ready[i].sessions.len() && (#[trigger] ready[i].sessions[k]).0
                        == session;
                &&& owned.contains_key(at) && states.contains_key(at)
                &&& owned[at].contains(session) <==> belongs
                &&& states[at].owned_session_ids.contains(session) <==> belongs
                &&& states[at].event_rowid == ready[i].event_rowid
                &&& states[at].event_id == ready[i].event_id
                &&& states[at].parser_version == version
            }
            &&& (forall|j: int| 0 <= j < n ==> (#[trigger] ready[j]).path != path)
                ==> !owned.contains_key(path) && !states.contains_key(path)
        }),
{
    let n = ready.len() as int;
    if 0 <= i < n && forall|j: int| i < j < n ==> (#[trigger] ready[j]).path != ready[i].path {
        lemma_ready_plan(ready, owners, version, n, i);
    }
    if forall|j: int| 0 <= j < n ==> (#[trigger] ready[j]).path != path {
        lemma_ready_plan_paths(ready, owners, version, n, path);
    }
}

proof fn lemma_session_directories(
    before: Map<(Seq<char>, Seq<char>), Seq<char>>,
    path: Seq<char>,
    sessions: Seq<(Seq<char>, Seq<char>)>,
    owners: Map<Seq<char>, Seq<char>>,
    n: int,
    scope: (Seq<char>, Seq<char>),
    k: int,
)
    requires
        0 <= n <= sessions.len(),
        k < n ==> 0 <= k && sessions[k].0 == scope.1,
        forall|j: int| k < j < n && 0 <= j ==> (#[trigger] sessions[j]).0 != scope.1,
    ensures
        ({
            let after = session_directories(before, path, sessions, owners, n);
            if 0 <= k < n && scope.0 == path && owners.contains_key(scope.1) && owners[scope.1]
                == path {
                after.contains_key(scope) && after[scope] == sessions[k].1
            } else if k < 0 || scope.0 != path || !(owners.contains_key(scope.1)
                && owners[scope.1] == path) {
                after.contains_key(scope) == before.contains_key(scope) && (before.contains_key(
                    scope,
                ) ==> after[scope] == before[scope])
            } else {
                true
            }
        }),
    decreases n,
{
    if n > 0 {
        if k < n - 1 {
            lemma_session_directories(before, path, sessions, owners, n - 1, scope, k);
            assert(sessions[n - 1].0 != scope.1);
        } else if !(scope.0 == path && owners.contains_key(scope.1) && owners[scope.1] == path) {
            lemma_unowned_directories(before, path, sessions, owners, n, scope);
        }
    }
}

proof fn lemma_unowned_directories(
    before: Map<(Seq<char>, Seq<char>), Seq<char>>,
    path: Seq<char>,
    sessions: Seq<(Seq<char>, Seq<char>)>,
    owners: Map<Seq<char>, Seq<char>>,
    n: int,
    scope: (Seq<char>, Seq<char>),
)
    requires
        0 <= n <= sessions.len(),
        !(scope.0 == path && owners.contains_key(scope.1) && owners[scope.1] == path),
    ensures
        ({
            let after = session_directories(before, path, sessions, owners, n);
            after.contains_key(scope) == before.contains_key(scope) && (before.contains_key(scope)
                ==> after[scope] == before[scope])
        }),
    decreases n,
{
    if n > 0 {
        lemma_unowned_directories(before, path, sessions, owners, n - 1, scope);
    }
}

proof fn lemma_directories(
    ready: Seq<ReadyModel>,
    owners: Map<Seq<char>, Seq<char>>,
    n: int,
    i: int,
    k: int,
)
    requires
        0 <= i < n <= ready.len(),
        forall|j: int| i < j < n ==> (#[trigger] ready[j]).path != ready[i].path,
        0 <= k < ready[i].sessions.len(),
        forall|j: int|
            k < j < ready[i].sessions.len() ==> (#[trigger] ready[i].sessions[j]).0
                != ready[i].sessions[k].0,
        owners.contains_key(ready[i].sessions[k].0),
        owners[ready[i].sessions[k].0] == ready[i].path,
    ensures
        ({
            let scope = (ready[i].path, ready[i].sessions[k].0);
            directories_upto(ready, owners, n).contains_key(scope) && directories_upto(
                ready,
                owners,
                n,
            )[scope] == ready[i].sessions[k].1
        }),
    decreases n,
{
    let scope = (ready[i].path, ready[i].sessions[k].0);
    let rest = directories_upto(ready, owners, n - 1);
    let sessions = ready[n - 1].sessions;
    if i < n - 1 {
        lemma_directories(ready, owners, n - 1, i, k);
        assert(ready[n - 1].path != ready[i].path);
        lemma_unowned_directories(
            rest,
            ready[n - 1].path,
            sessions,
            owners,
            sessions.len() as int,
            scope,
        );
    } else {
        lemma_session_directories(
            rest,
            ready[n - 1].path,
            sessions,
            owners,
            sessions.len() as int,
            scope,
            k,
        );
    }
}

proof fn lemma_directories_are_owned(
    ready: Seq<ReadyModel>,
    owners: Map<Seq<char>, Seq<char>>,
    n: int,
    scope: (Seq<char>, Seq<char>),
)
    requires
        0 <= n <= ready.len(),
        !(owners.contains_key(scope.1) && owners[scope.1] == scope.0),
    ensures
        !directories_upto(ready, owners, n).contains_key(scope),
    decreases n,
{
    if n > 0 {
        lemma_directories_are_owned(ready, owners, n - 1, scope);
        let sessions = ready[n - 1].sessions;
        lemma_unowned_directories(
            directories_upto(ready, owners, n - 1),
            ready[n - 1].path,
            sessions,
            owners,
            sessions.len() as int,
            scope,
        );
    }
}

/// The working directory of a session is the one that its owner lists for it, last where it is
/// listed more than once. A session is given none in a database that does not own it.
pub proof fn law_sessions_work_where_their_owner_says(
    ready: Seq<ReadyModel>,
    owners: Map<Seq<char>, Seq<char>>,
    i: int,
    k: int,
    scope: (Seq<char>, Seq<char>),
)
    ensures
        ({
            let n = ready.len() as int;
            let directories = directories_upto(ready, owners, n);
            &&& (0 <= i < n && 0 <= k < ready[i].sessions.len() && (forall|j: int|
                i < j < n ==> (#[trigger] ready[j]).path != ready[i].path) && (forall|j: int|
                k < j < ready[i].sessions.len() ==> (#[trigger] ready[i].sessions[j]).0
                    != ready[i].sessions[k].0) && owners.contains_key(ready[i].sessions[k].0)
                && owners[ready[i].sessions[k].0] == ready[i].path) ==> directories.contains_key(
                (ready[i].path, ready[i].sessions[k].0),
            ) && directories[(ready[i].path, ready[i].sessions[k].0)] == ready[i].sessions[k].1
            &&& !(owners.contains_key(scope.1) && owners[scope.1] == scope.0)
                ==> !directories.contains_key(scope)
        }),
{
    let n = ready.len() as int;
    if 0 <= i < n && 0 <= k < ready[i].sessions.len() && (forall|j: int|
        i < j < n ==> (#[trigger] ready[j]).path != ready[i].path) && (forall|j: int|
        k < j < ready[i].sessions.len() ==> (#[trigger] ready[i].sessions[j]).0
            != ready[i].sessions[k].0) && owners.contains_key(ready[i].sessions[k].0)
        && owners[ready[i].sessions[k].0] == ready[i].path {
        lemma_directories(ready, owners, n, i, k);
    }
    if !(owners.contains_key(scope.1) && owners[scope.1] == scope.0) {
        lemma_directories_are_owned(ready, owners, n, scope);
    }
}

/// A pending session is deferred exactly if its database could not be read, and as often as it
/// is pending.
pub proof fn law_unreadable_sessions_are_deferred(
    pending: Seq<(Seq<char>, Seq<char>)>,
    classified: Map<Seq<char>, DatabaseOutcome>,
    n: int,
)
    requires
        0 <= n <= pending.len(),
    ensures
        ({
            let deferred = deferred_upto(pending, classified, n);
            &&& deferred == pending.take(n).filter(
                |scope: (Seq<char>, Seq<char>)|
                    classified.contains_key(scope.0) && classified[scope.0]
                        == DatabaseOutcome::Failed,
            )
        }),
    decreases n,
{
    let failed = |scope: (Seq<char>, Seq<char>)|
        classified.contains_key(scope.0) && classified[scope.0] == DatabaseOutcome::Failed;
    reveal(Seq::filter);
    if n > 0 {
        law_unreadable_sessions_are_deferred(pending, classified, n - 1);
        assert(pending.take(n).drop_last() =~= pending.take(n - 1));
        assert(pending.take(n).last() == pending[n - 1]);
    } else {
        assert(pending.take(0) =~= Seq::empty());
    }
}

proof fn lemma_candidates(
    files: Seq<LegacyFile>,
    owners: Map<Seq<char>, Seq<char>>,
    n: int,
    key: Seq<char>,
)
    requires
        0 <= n <= files.len(),
    ensures
        candidates_upto(files, owners, n).contains(key) <==> exists|i: int|
            0 <= i < n && !(#[trigger] files[i]).excluded && superseded(
                files[i].path.spelling(),
                owners,
            ) && lossy_text(files[i].path.spelling()) == key,
    decreases n,
{
    if n > 0 {
        lemma_candidates(files, owners, n - 1, key);
    }
}

/// A single-file transcript is superseded exactly if its file name is the id of a session that
/// some database owns. The transcripts to look up are those, as far as they are not excluded,
/// and such a transcript is never inspected as a file of its own.
pub proof fn law_owned_sessions_supersede_their_transcripts(
    files: Seq<LegacyFile>,
    owners: Map<Seq<char>, Seq<char>>,
    path: Seq<u8>,
    name: Seq<u8>,
    id: Seq<char>,
    i: int,
    key: Seq<char>,
)
    requires
        crate::path::byte_parts(path).len() > 0,
        crate::path::byte_parts(path).last() == crate::path::Part::Normal(name),
    ensures
        owners.contains_key(id) && encode_utf8(id) == name ==> superseded(path, owners)
            && counted_owned(path, owners),
        superseded(path, owners) ==> exists|owned: Seq<char>|
            #![trigger owners.contains_key(owned)]
            owners.contains_key(owned) && encode_utf8(owned) == name,
        valid_utf8(name) ==> counted_owned(path, owners) == superseded(path, owners),
        0 <= i < files.len() && !files[i].excluded && superseded(files[i].path.spelling(), owners)
            ==> candidates_upto(files, owners, files.len() as int).contains(
            lossy_text(files[i].path.spelling()),
        ),
        candidates_upto(files, owners, files.len() as int).contains(key) ==> exists|k: int|
            0 <= k < files.len() && !(#[trigger] files[k]).excluded && superseded(
                files[k].path.spelling(),
                owners,
            ) && lossy_text(files[k].path.spelling()) == key,
{
    if owners.contains_key(id) && encode_utf8(id) == name {
        vstd::utf8::encode_utf8_valid_utf8(id);
    }
    lemma_candidates(files, owners, files.len() as int, key);
    if 0 <= i < files.len() {
        lemma_candidates(
            files,
            owners,
            files.len() as int,
            lossy_text(files[i].path.spelling()),
        );
    }
}

/// An excluded transcript is left alone. Any other is superseded where a database owns its
/// session, and is inspected otherwise. Pending sessions wait as a whole where no database was
/// inspected.
pub proof fn law_transcripts_of_owned_sessions_are_superseded(
    excluded: bool,
    path: Seq<u8>,
    owners: Map<Seq<char>, Seq<char>>,
    pending: Seq<(Seq<char>, Seq<char>)>,
    classified: Map<Seq<char>, DatabaseOutcome>,
)
    ensures
        legacy_decision(excluded, path, owners) == LegacyStep::Skip <==> excluded,
        legacy_decision(excluded, path, owners) == LegacyStep::Supersede <==> !excluded
            && counted_owned(path, owners),
        superseded(path, owners) && !excluded ==> legacy_decision(excluded, path, owners)
            == LegacyStep::Supersede,
        deferred_scopes(pending, false, classified) == pending,
        deferred_scopes(pending, true, classified) == pending.filter(
            |scope: (Seq<char>, Seq<char>)|
                classified.contains_key(scope.0) && classified[scope.0] == DatabaseOutcome::Failed,
        ),
{
    law_unreadable_sessions_are_deferred(pending, classified, pending.len() as int);
    assert(pending.take(pending.len() as int) =~= pending);
}

} // verus!
