//! A checkpoint session: the files a refresh has looked at, and the sparse change it will
//! commit.

use vstd::prelude::*;
use crate::checkpoint::{
    any_outside, no_change, CheckpointDelta, CheckpointHeader, DeltaModel,
};
use crate::keys::{TextMap, TextSet};
use crate::model::Modeled;
use crate::sorted::{lemma_take_members, SortedMap, SortedSet};
use crate::state::{DatabaseModel, FileModel, FileState, OpencodeDatabaseState};

verus! {

/// What a session knows.
#[verifier::ext_equal]
pub struct SessionState {
    pub loaded: Map<Seq<char>, Option<FileModel>>,
    pub delta: DeltaModel,
    pub original_next_doc_id: u64,
    pub original_opencode_databases: Map<Seq<char>, DatabaseModel>,
    pub next_doc_id: u64,
    pub opencode_databases: Map<Seq<char>, DatabaseModel>,
}

impl SessionState {
    /// The change and the loaded files agree: no file is both written and removed, nothing is
    /// removed singly once everything is, and loaded files show what the change does to them.
    pub open spec fn coherent(self) -> bool {
        &&& self.delta.upserts.dom().disjoint(self.delta.deletes)
        &&& self.delta.clear_files ==> self.delta.deletes == Set::<Seq<char>>::empty()
        &&& forall|path: Seq<char>| #[trigger]
            self.delta.upserts.contains_key(path) ==> self.loaded.contains_key(path)
                && self.loaded[path] == Some(self.delta.upserts[path])
        &&& forall|path: Seq<char>| #[trigger]
            self.delta.deletes.contains(path) ==> self.loaded.contains_key(path)
                && self.loaded[path] is None
    }

    /// The state of a file as the session sees it, over a store with these files.
    pub open spec fn visible(
        self,
        stored: Map<Seq<char>, FileModel>,
        path: Seq<char>,
    ) -> Option<FileModel> {
        if self.delta.upserts.contains_key(path) {
            Some(self.delta.upserts[path])
        } else if self.delta.clear_files || self.delta.deletes.contains(path)
            || !stored.contains_key(path) {
            None
        } else {
            Some(stored[path])
        }
    }

    /// Every loaded file is what the session sees.
    pub open spec fn faithful(self, stored: Map<Seq<char>, FileModel>) -> bool {
        forall|path: Seq<char>| #[trigger]
            self.loaded.contains_key(path) ==> self.loaded[path] == self.visible(stored, path)
    }

    /// After a file was removed.
    pub open spec fn after_delete(self, path: Seq<char>) -> SessionState {
        SessionState {
            loaded: self.loaded.insert(path, None),
            delta: DeltaModel {
                upserts: self.delta.upserts.remove(path),
                deletes: if self.delta.clear_files {
                    self.delta.deletes
                } else {
                    self.delta.deletes.insert(path)
                },
                ..self.delta
            },
            ..self
        }
    }

    /// After all files were removed.
    pub open spec fn after_clear(self) -> SessionState {
        SessionState {
            loaded: Map::empty(),
            delta: DeltaModel {
                upserts: Map::empty(),
                deletes: Set::empty(),
                clear_files: true,
                ..self.delta
            },
            ..self
        }
    }

    /// After a file was written: nothing changes where it is loaded in that very state.
    pub open spec fn after_upsert(self, path: Seq<char>, file: FileModel) -> SessionState {
        if self.loaded.contains_key(path) && self.loaded[path] == Some(file) {
            self
        } else {
            SessionState {
                loaded: self.loaded.insert(path, Some(file)),
                delta: DeltaModel {
                    upserts: self.delta.upserts.insert(path, file),
                    deletes: self.delta.deletes.remove(path),
                    ..self.delta
                },
                ..self
            }
        }
    }

    /// After files were loaded.
    pub open spec fn after_preload(
        self,
        paths: Set<Seq<char>>,
        stored: Map<Seq<char>, FileModel>,
    ) -> SessionState {
        SessionState {
            loaded: Map::new(
                |path: Seq<char>| self.loaded.contains_key(path) || paths.contains(path),
                |path: Seq<char>|
                    if self.loaded.contains_key(path) {
                        self.loaded[path]
                    } else if self.delta.clear_files || !stored.contains_key(path) {
                        None
                    } else {
                        Some(stored[path])
                    },
            ),
            ..self
        }
    }

    /// With the document id and the databases in the change if they differ from the stored
    /// ones.
    pub open spec fn ready(self) -> SessionState {
        SessionState {
            delta: DeltaModel {
                next_doc_id: if self.next_doc_id != self.original_next_doc_id {
                    Some(self.next_doc_id)
                } else {
                    None
                },
                opencode_databases: if self.opencode_databases != self.original_opencode_databases {
                    Some(self.opencode_databases)
                } else {
                    None
                },
                ..self.delta
            },
            ..self
        }
    }

    /// After the change was stored.
    pub open spec fn after_commit(self) -> SessionState {
        SessionState {
            delta: no_change(),
            original_next_doc_id: self.next_doc_id,
            original_opencode_databases: self.opencode_databases,
            ..self
        }
    }

    /// The session holds the file, given whether the store has a row for it.
    pub open spec fn holds(self, path: Seq<char>, stored: bool) -> bool {
        if self.loaded.contains_key(path) {
            self.loaded[path] is Some
        } else {
            !self.delta.clear_files && stored
        }
    }

    /// The paths among these whose rows have to be read.
    pub open spec fn missing(self, paths: Set<Seq<char>>) -> Set<Seq<char>> {
        if self.delta.clear_files {
            Set::empty()
        } else {
            paths.difference(self.loaded.dom())
        }
    }

    /// The file keys that the session sees, over a store with these keys.
    pub open spec fn visible_keys(self, stored: Set<Seq<char>>) -> Set<Seq<char>> {
        (if self.delta.clear_files {
            Set::empty()
        } else {
            stored.difference(self.delta.deletes)
        }).union(self.delta.upserts.dom())
    }
}

/// The files of a store after a change.
pub open spec fn stored_after(
    stored: Map<Seq<char>, FileModel>,
    delta: DeltaModel,
) -> Map<Seq<char>, FileModel> {
    (if delta.clear_files {
        Map::empty()
    } else {
        stored
    }).remove_keys(delta.deletes).union_prefer_right(delta.upserts)
}

/// A checkpoint session.
pub struct CheckpointSession {
    loaded: TextMap<Option<FileState>>,
    delta: CheckpointDelta,
    original_next_doc_id: u64,
    original_opencode_databases: TextMap<OpencodeDatabaseState>,
    next_doc_id: u64,
    opencode_databases: TextMap<OpencodeDatabaseState>,
}

impl CheckpointSession {
    /// What the session knows.
    pub closed spec fn state(&self) -> SessionState {
        SessionState {
            loaded: self.loaded.deep_view(),
            delta: self.delta.deep_view(),
            original_next_doc_id: self.original_next_doc_id,
            original_opencode_databases: self.original_opencode_databases.deep_view(),
            next_doc_id: self.next_doc_id,
            opencode_databases: self.opencode_databases.deep_view(),
        }
    }

    #[verifier::type_invariant]
    spec fn well_formed(&self) -> bool {
        self.state().coherent()
    }

    /// Starts a session over a store with this header.
    pub fn open(header: CheckpointHeader) -> (session: Self)
        ensures
            session.state() == (SessionState {
                loaded: Map::empty(),
                delta: no_change(),
                original_next_doc_id: header.next_doc_id,
                original_opencode_databases: header.opencode_databases.deep_view(),
                next_doc_id: header.next_doc_id,
                opencode_databases: header.opencode_databases.deep_view(),
            }),
    {
        CheckpointSession {
            loaded: SortedMap::new(),
            delta: CheckpointDelta::default(),
            original_next_doc_id: header.next_doc_id,
            original_opencode_databases: header.opencode_databases.duplicate(),
            next_doc_id: header.next_doc_id,
            opencode_databases: header.opencode_databases,
        }
    }

    /// The paths whose rows have to be read before they can be loaded: those not loaded yet,
    /// unless the session removes all files anyway.
    pub fn missing(&self, paths: &Vec<String>) -> (missing: Vec<String>)
        ensures
            missing.deep_view().to_set() == self.state().missing(paths.deep_view().to_set()),
            missing.deep_view().to_set() == (if self.state().delta.clear_files {
                Set::empty()
            } else {
                paths.deep_view().to_set().difference(self.state().loaded.dom())
            }),
            missing.deep_view().no_duplicates(),
    {
        let mut missing: TextSet = SortedSet::new();
        let ghost keys = paths.deep_view();
        let ghost loaded = self.loaded.deep_view().dom();
        if !self.delta.clear_files {
            let mut i: usize = 0;
            assert(missing.deep_view() =~= keys.take(0).to_set().difference(loaded));
            while i < paths.len()
                invariant
                    i <= paths@.len(),
                    keys == paths.deep_view(),
                    loaded == self.loaded.deep_view().dom(),
                    missing.deep_view() == keys.take(i as int).to_set().difference(loaded),
                decreases paths@.len() - i,
            {
                if !self.loaded.contains_key(&paths[i]) {
                    missing.insert(paths[i].duplicate());
                }
                proof {
                    lemma_take_members(keys, i as int);
                    assert(keys[i as int] == paths@[i as int].deep_view());
                    assert(missing.deep_view() =~= keys.take(i + 1).to_set().difference(loaded));
                }
                i += 1;
            }
            assert(keys.take(i as int) =~= keys);
        }
        missing.list()
    }

    /// Loads files, given the rows that the store holds for those that were missing.
    pub fn preload(&mut self, paths: &Vec<String>, stored: &TextMap<FileState>)
        ensures
            final(self).state() == old(self).state().after_preload(
                paths.deep_view().to_set(),
                stored.deep_view(),
            ),
    {
        proof {
            use_type_invariant(&*self);
        }
        let ghost before = self.state();
        let ghost keys = paths.deep_view();
        let ghost rows = stored.deep_view();
        let mut loaded = self.loaded.duplicate();
        let mut i: usize = 0;
        assert(loaded.deep_view() =~= before.after_preload(keys.take(0).to_set(), rows).loaded);
        while i < paths.len()
            invariant
                i <= paths@.len(),
                keys == paths.deep_view(),
                rows == stored.deep_view(),
                before == self.state(),
                loaded.deep_view() == before.after_preload(
                    keys.take(i as int).to_set(),
                    rows,
                ).loaded,
            decreases paths@.len() - i,
        {
            let path = &paths[i];
            if !self.loaded.contains_key(path) {
                let file = if self.delta.clear_files {
                    None
                } else {
                    match stored.get(path) {
                        Some(file) => Some(file.duplicate()),
                        None => None,
                    }
                };
                loaded.insert(path.duplicate(), file);
            }
            proof {
                lemma_take_members(keys, i as int);
                assert(keys[i as int] == paths@[i as int].deep_view());
                assert(loaded.deep_view() =~= before.after_preload(
                    keys.take(i + 1).to_set(),
                    rows,
                ).loaded);
            }
            i += 1;
        }
        assert(keys.take(i as int) =~= keys);
        self.loaded = loaded;
    }

    /// The state of a loaded file.
    pub fn file(&self, path: &String) -> (file: Option<&FileState>)
        requires
            self.state().loaded.contains_key(path@),
        ensures
            file.deep_view() == self.state().loaded[path@],
    {
        match self.loaded.get(path) {
            Some(file) => file.as_ref(),
            None => None,
        }
    }

    /// Whether a path was loaded.
    pub fn is_loaded(&self, path: &String) -> (result: bool)
        ensures
            result == self.state().loaded.contains_key(path@),
    {
        self.loaded.contains_key(path)
    }

    /// Whether a file exists, given whether the store holds a row for it. The row counts only
    /// for a path that is not loaded, and only while not all files are removed.
    pub fn contains_file(&self, path: &String, stored: bool) -> (result: bool)
        ensures
            result == self.state().holds(path@, stored),
            result == (if self.state().loaded.contains_key(path@) {
                self.state().loaded[path@] is Some
            } else {
                !self.state().delta.clear_files && stored
            }),
    {
        match self.loaded.get(path) {
            Some(file) => file.is_some(),
            None => !self.delta.clear_files && stored,
        }
    }

    /// The keys of all files, given the keys that the store holds.
    pub fn file_keys(&self, stored: &Vec<String>) -> (keys: Vec<String>)
        ensures
            keys.deep_view().to_set() == self.state().visible_keys(stored.deep_view().to_set()),
            keys.deep_view().no_duplicates(),
    {
        let mut keys: TextSet = SortedSet::new();
        let ghost models = stored.deep_view();
        let ghost deletes = self.delta.deletes.deep_view();
        if !self.delta.clear_files {
            let mut i: usize = 0;
            assert(keys.deep_view() =~= models.take(0).to_set().difference(deletes));
            while i < stored.len()
                invariant
                    i <= stored@.len(),
                    models == stored.deep_view(),
                    deletes == self.delta.deletes.deep_view(),
                    keys.deep_view() == models.take(i as int).to_set().difference(deletes),
                decreases stored@.len() - i,
            {
                if !self.delta.deletes.contains(&stored[i]) {
                    keys.insert(stored[i].duplicate());
                }
                proof {
                    lemma_take_members(models, i as int);
                    assert(models[i as int] == stored@[i as int].deep_view());
                    assert(keys.deep_view() =~= models.take(i + 1).to_set().difference(deletes));
                }
                i += 1;
            }
            assert(models.take(i as int) =~= models);
        }
        keys.add_all(&self.delta.upserts.key_list());
        keys.list()
    }

    /// Whether any file exists, given the keys that the store holds.
    pub fn has_files(&self, stored: &Vec<String>) -> (result: bool)
        ensures
            result == exists|key: Seq<char>|
                self.state().visible_keys(stored.deep_view().to_set()).contains(key),
    {
        let upserts = self.delta.upserts.len();
        if upserts > 0 {
            let first = self.delta.upserts.key_at(0);
            assert(self.state().visible_keys(stored.deep_view().to_set()).contains(
                first.deep_view(),
            ));
            return true;
        }
        assert(self.state().delta.upserts.dom() =~= Set::empty());
        if self.delta.clear_files {
            return false;
        }
        let result = any_outside(stored, &self.delta.deletes);
        proof {
            let seen = self.state().visible_keys(stored.deep_view().to_set());
            let stored_keys = stored.deep_view().to_set();
            if result {
                let key = choose|key: Seq<char>|
                    stored_keys.contains(key) && !self.delta.deletes.deep_view().contains(key);
                assert(seen.contains(key));
            } else {
                assert forall|key: Seq<char>| !seen.contains(key) by {}
            }
        }
        result
    }

    /// Removes a file.
    pub fn delete_file(&mut self, path: &String)
        ensures
            final(self).state() == old(self).state().after_delete(path@),
    {
        proof {
            use_type_invariant(&*self);
        }
        let mut taken = CheckpointSession::idle();
        std::mem::swap(&mut taken, self);
        proof {
            use_type_invariant(&taken);
        }
        let CheckpointSession {
            mut loaded,
            mut delta,
            original_next_doc_id,
            original_opencode_databases,
            next_doc_id,
            opencode_databases,
        } = taken;
        loaded.insert(path.duplicate(), None);
        delta.upserts.remove(path);
        if !delta.clear_files {
            delta.deletes.insert(path.duplicate());
        }
        *self = CheckpointSession {
            loaded,
            delta,
            original_next_doc_id,
            original_opencode_databases,
            next_doc_id,
            opencode_databases,
        };
    }

    /// Removes all files.
    pub fn clear_files(&mut self)
        ensures
            final(self).state() == old(self).state().after_clear(),
    {
        let mut taken = CheckpointSession::idle();
        std::mem::swap(&mut taken, self);
        let CheckpointSession {
            loaded: _,
            delta,
            original_next_doc_id,
            original_opencode_databases,
            next_doc_id,
            opencode_databases,
        } = taken;
        *self = CheckpointSession {
            loaded: SortedMap::new(),
            delta: CheckpointDelta {
                upserts: SortedMap::new(),
                deletes: SortedSet::new(),
                clear_files: true,
                next_doc_id: delta.next_doc_id,
                opencode_databases: delta.opencode_databases,
            },
            original_next_doc_id,
            original_opencode_databases,
            next_doc_id,
            opencode_databases,
        };
    }

    /// Writes a file.
    pub fn upsert_file(&mut self, path: String, file: FileState)
        ensures
            final(self).state() == old(self).state().after_upsert(path@, file.deep_view()),
    {
        proof {
            use_type_invariant(&*self);
        }
        if let Some(Some(previous)) = self.loaded.get(&path) {
            if previous.same(&file) {
                return ;
            }
        }
        let mut taken = CheckpointSession::idle();
        std::mem::swap(&mut taken, self);
        proof {
            use_type_invariant(&taken);
        }
        let CheckpointSession {
            mut loaded,
            mut delta,
            original_next_doc_id,
            original_opencode_databases,
            next_doc_id,
            opencode_databases,
        } = taken;
        delta.deletes.remove(&path);
        loaded.insert(path.duplicate(), Some(file.duplicate()));
        delta.upserts.insert(path, file);
        proof {
            if delta.clear_files {
                assert(delta.deletes.deep_view() =~= Set::empty());
            }
        }
        *self = CheckpointSession {
            loaded,
            delta,
            original_next_doc_id,
            original_opencode_databases,
            next_doc_id,
            opencode_databases,
        };
    }

    /// The next document id.
    pub fn next_doc_id(&self) -> (id: u64)
        ensures
            id == self.state().next_doc_id,
    {
        self.next_doc_id
    }

    /// Changes the next document id.
    pub fn set_next_doc_id(&mut self, id: u64)
        ensures
            final(self).state() == (SessionState { next_doc_id: id, ..old(self).state() }),
    {
        proof {
            use_type_invariant(&*self);
        }
        self.next_doc_id = id;
    }

    /// The databases.
    pub fn opencode_databases(&self) -> (databases: &TextMap<OpencodeDatabaseState>)
        ensures
            databases.deep_view() == self.state().opencode_databases,
    {
        &self.opencode_databases
    }

    /// Changes the databases.
    pub fn set_opencode_databases(&mut self, databases: TextMap<OpencodeDatabaseState>)
        ensures
            final(self).state() == (SessionState {
                opencode_databases: databases.deep_view(),
                ..old(self).state()
            }),
    {
        proof {
            use_type_invariant(&*self);
        }
        self.opencode_databases = databases;
    }

    /// Completes the change that is to be stored.
    pub fn prepare_commit(&mut self) -> (delta: &CheckpointDelta)
        ensures
            final(self).state() == old(self).state().ready(),
            delta.deep_view() == old(self).state().ready().delta,
    {
        proof {
            use_type_invariant(&*self);
        }
        let mut taken = CheckpointSession::idle();
        std::mem::swap(&mut taken, self);
        proof {
            use_type_invariant(&taken);
        }
        let CheckpointSession {
            loaded,
            delta,
            original_next_doc_id,
            original_opencode_databases,
            next_doc_id,
            opencode_databases,
        } = taken;
        let changed_id = if next_doc_id != original_next_doc_id {
            Some(next_doc_id)
        } else {
            None
        };
        let changed_databases = if !opencode_databases.same(&original_opencode_databases) {
            Some(opencode_databases.duplicate())
        } else {
            None
        };
        let delta = CheckpointDelta {
            upserts: delta.upserts,
            deletes: delta.deletes,
            clear_files: delta.clear_files,
            next_doc_id: changed_id,
            opencode_databases: changed_databases,
        };
        *self = CheckpointSession {
            loaded,
            delta,
            original_next_doc_id,
            original_opencode_databases,
            next_doc_id,
            opencode_databases,
        };
        &self.delta
    }

    /// Takes note that the change was stored, and says whether there was any. Without this
    /// note the change stays pending.
    pub fn commit(&mut self) -> (changed: bool)
        ensures
            changed == !old(self).state().delta.is_empty(),
            final(self).state() == old(self).state().after_commit(),
    {
        let changed = !self.delta.is_empty();
        let mut taken = CheckpointSession::idle();
        std::mem::swap(&mut taken, self);
        let CheckpointSession {
            loaded,
            delta: _,
            original_next_doc_id: _,
            original_opencode_databases: _,
            next_doc_id,
            opencode_databases,
        } = taken;
        *self = CheckpointSession {
            loaded,
            delta: CheckpointDelta::default(),
            original_next_doc_id: next_doc_id,
            original_opencode_databases: opencode_databases.duplicate(),
            next_doc_id,
            opencode_databases,
        };
        changed
    }

    /// A session that knows nothing and changes nothing. It takes the place of one whose parts
    /// are being exchanged.
    fn idle() -> (session: Self)
        ensures
            session.state() == (SessionState {
                loaded: Map::empty(),
                delta: no_change(),
                original_next_doc_id: 0,
                original_opencode_databases: Map::empty(),
                next_doc_id: 0,
                opencode_databases: Map::empty(),
            }),
    {
        CheckpointSession {
            loaded: SortedMap::new(),
            delta: CheckpointDelta::default(),
            original_next_doc_id: 0,
            original_opencode_databases: SortedMap::new(),
            next_doc_id: 0,
            opencode_databases: SortedMap::new(),
        }
    }
}

/// Whatever a session does, its change and its loaded files keep agreeing with each other and
/// with the store.
pub proof fn law_steps_keep_the_session_faithful(
    session: SessionState,
    stored: Map<Seq<char>, FileModel>,
    path: Seq<char>,
    file: FileModel,
    paths: Set<Seq<char>>,
)
    requires
        session.coherent(),
        session.faithful(stored),
    ensures
        session.after_delete(path).coherent(),
        session.after_delete(path).faithful(stored),
        session.after_clear().coherent(),
        session.after_clear().faithful(stored),
        session.after_upsert(path, file).coherent(),
        session.after_upsert(path, file).faithful(stored),
        session.after_preload(paths, stored).coherent(),
        session.after_preload(paths, stored).faithful(stored),
        session.ready().coherent(),
        session.ready().faithful(stored),
{
    let deleted = session.after_delete(path);
    assert(session.delta.clear_files ==> deleted.delta.deletes =~= Set::empty());
    let written = session.after_upsert(path, file);
    assert(session.delta.clear_files ==> written.delta.deletes =~= Set::empty());
}

/// A session sees a removed file as absent, a written file as it was written, and every other
/// file as before.
pub proof fn law_session_sees_its_own_changes(
    session: SessionState,
    stored: Map<Seq<char>, FileModel>,
    path: Seq<char>,
    file: FileModel,
    other: Seq<char>,
)
    requires
        session.coherent(),
        session.faithful(stored),
        other != path,
    ensures
        session.after_delete(path).visible(stored, path) is None,
        session.after_delete(path).visible(stored, other) == session.visible(stored, other),
        session.after_upsert(path, file).visible(stored, path) == Some(file),
        session.after_upsert(path, file).visible(stored, other) == session.visible(stored, other),
        session.after_clear().visible(stored, other) is None,
{
}

/// Committing changes nothing that the session sees: the store then holds what the change
/// described.
pub proof fn law_commit_preserves_what_is_seen(
    session: SessionState,
    stored: Map<Seq<char>, FileModel>,
    path: Seq<char>,
)
    requires
        session.coherent(),
        session.faithful(stored),
    ensures
        session.after_commit().visible(stored_after(stored, session.delta), path)
            == session.visible(stored, path),
        session.after_commit().coherent(),
        session.after_commit().faithful(stored_after(stored, session.delta)),
        session.visible_keys(stored.dom()) =~= stored_after(stored, session.delta).dom(),
{
    let after = stored_after(stored, session.delta);
    assert forall|p: Seq<char>| session.after_commit().visible(after, p) == session.visible(
        stored,
        p,
    ) by {}
}

/// After preloading, every path that was asked for is loaded, and nothing that was loaded before
/// is loaded anew. What is loaded now is what the store holds, unless all files were cleared.
pub proof fn law_preloaded_files_can_be_read(
    session: SessionState,
    stored: Map<Seq<char>, FileModel>,
    paths: Set<Seq<char>>,
    path: Seq<char>,
)
    ensures
        ({
            let after = session.after_preload(paths, stored);
            &&& after.loaded.contains_key(path) <==> session.loaded.contains_key(path)
                || paths.contains(path)
            &&& session.loaded.contains_key(path) ==> after.loaded[path] == session.loaded[path]
            &&& paths.contains(path) && !session.loaded.contains_key(path) ==> {
                &&& !session.delta.clear_files && stored.contains_key(path) ==> after.loaded[path]
                    == Some(stored[path])
                &&& session.delta.clear_files || !stored.contains_key(path)
                    ==> after.loaded[path] is None
            }
            &&& after.delta == session.delta
        }),
{
}

/// What a change of the files leaves alone: the next id and the databases, and what was read of
/// any other file. Deleting, writing and clearing each tell the store what to do.
pub proof fn law_changes_are_recorded_for_the_store(
    session: SessionState,
    path: Seq<char>,
    file: FileModel,
    other: Seq<char>,
)
    requires
        session.coherent(),
        other != path,
    ensures
        ({
            let deleted = session.after_delete(path);
            let written = session.after_upsert(path, file);
            let cleared = session.after_clear();
            &&& deleted.loaded.contains_key(path) && deleted.loaded[path] is None
            &&& !deleted.delta.upserts.contains_key(path)
            &&& !session.delta.clear_files ==> deleted.delta.deletes.contains(path)
            &&& deleted.delta.upserts.contains_key(other) == session.delta.upserts.contains_key(
                other,
            )
            &&& deleted.delta.deletes.contains(other) == session.delta.deletes.contains(other)
            &&& written.loaded.contains_key(path) && written.loaded[path] == Some(file)
            &&& !written.delta.deletes.contains(path)
            &&& !(session.loaded.contains_key(path) && session.loaded[path] == Some(file))
                ==> written.delta.upserts.contains_key(path) && written.delta.upserts[path] == file
            &&& session.loaded.contains_key(path) && session.loaded[path] == Some(file) ==> written
                == session
            &&& written.delta.upserts.contains_key(other) == session.delta.upserts.contains_key(
                other,
            )
            &&& written.delta.deletes.contains(other) == session.delta.deletes.contains(other)
            &&& written.delta.clear_files == session.delta.clear_files
            &&& deleted.delta.clear_files == session.delta.clear_files
            &&& cleared.delta.clear_files && !cleared.delta.upserts.contains_key(other)
                && !cleared.delta.deletes.contains(other) && !cleared.loaded.contains_key(other)
            &&& deleted.next_doc_id == session.next_doc_id && written.next_doc_id
                == session.next_doc_id && cleared.next_doc_id == session.next_doc_id
            &&& deleted.opencode_databases == session.opencode_databases
                && written.opencode_databases == session.opencode_databases
                && cleared.opencode_databases == session.opencode_databases
            &&& deleted.delta.next_doc_id == session.delta.next_doc_id
                && written.delta.next_doc_id == session.delta.next_doc_id
        }),
{
    if session.loaded.contains_key(path) && session.loaded[path] == Some(file) {
        assert(!session.delta.deletes.contains(path));
    }
}

/// A commit stores the next id and the databases exactly if they are not those that the session
/// began with. After it the session begins anew: there is nothing to store, and what is current
/// is what it began with.
pub proof fn law_commits_store_what_differs(session: SessionState)
    ensures
        ({
            let ready = session.ready();
            let after = session.after_commit();
            &&& ready.delta.next_doc_id is Some <==> session.next_doc_id
                != session.original_next_doc_id
            &&& ready.delta.next_doc_id is Some ==> ready.delta.next_doc_id == Some(
                session.next_doc_id,
            )
            &&& ready.delta.opencode_databases is Some <==> session.opencode_databases
                != session.original_opencode_databases
            &&& ready.delta.opencode_databases is Some ==> ready.delta.opencode_databases == Some(
                session.opencode_databases,
            )
            &&& ready.delta.upserts == session.delta.upserts
            &&& ready.delta.deletes == session.delta.deletes
            &&& ready.delta.clear_files == session.delta.clear_files
            &&& ready.loaded == session.loaded && after.loaded == session.loaded
            &&& after.next_doc_id == session.next_doc_id && after.opencode_databases
                == session.opencode_databases
            &&& after.ready().delta.is_empty()
        }),
{
    let delta = session.after_commit().ready().delta;
    assert(delta.upserts.dom() =~= Set::empty());
}

/// The files of a session are those that it wrote, and of the stored ones those that it neither
/// deleted nor cleared.
pub proof fn law_visible_keys(session: SessionState, stored: Set<Seq<char>>, path: Seq<char>)
    ensures
        session.visible_keys(stored).contains(path) <==> session.delta.upserts.contains_key(path)
            || (stored.contains(path) && !session.delta.clear_files
            && !session.delta.deletes.contains(path)),
{
}

/// A session holds a file exactly if it can be seen, whether it is loaded or not. The rows that
/// are missing are all that has to be read: preloading with just those gives the same.
pub proof fn law_missing_rows_suffice(
    session: SessionState,
    stored: Map<Seq<char>, FileModel>,
    paths: Set<Seq<char>>,
    path: Seq<char>,
)
    requires
        session.coherent(),
        session.faithful(stored),
    ensures
        session.holds(path, stored.contains_key(path)) <==> session.visible(stored, path) is Some,
        session.after_preload(paths, stored) == session.after_preload(
            paths,
            stored.restrict(session.missing(paths)),
        ),
        session.missing(paths).contains(path) <==> paths.contains(path)
            && !session.loaded.contains_key(path) && !session.delta.clear_files,
{
    if session.loaded.contains_key(path) {
        assert(session.loaded[path] == session.visible(stored, path));
    } else if session.delta.upserts.contains_key(path) {
        assert(session.loaded.contains_key(path));
    } else if session.delta.deletes.contains(path) {
        assert(session.loaded.contains_key(path));
    }
    let read = session.after_preload(paths, stored.restrict(session.missing(paths)));
    assert(session.after_preload(paths, stored).loaded =~= read.loaded);
}

} // verus!
