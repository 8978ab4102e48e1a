//! When a refresh can be left out, and when the vectors have to be built anew.

use vstd::prelude::*;
use crate::files::{FileChange, FileTask, TaskModel};
use crate::model::Modeled;
use crate::text::equals;

verus! {

/// What listing the session databases gave.
#[derive(Clone, Copy, Debug, PartialEq, Eq, Structural)]
pub enum DatabaseListing {
    Failed,
    Found(usize),
}

/// What is known so far when a refresh asks whether the last scan still holds.
#[derive(Clone, Copy, Debug, PartialEq, Eq, Structural)]
pub struct FreshFacts {
    /// An interrupted refresh left something behind.
    pub pending: bool,
    pub include_opencode: bool,
    pub databases: Option<DatabaseListing>,
    pub documents: Option<u64>,
    /// The cached scan is young enough.
    pub fresh: Option<bool>,
    /// The analytics cover the index.
    pub analytics_complete: Option<bool>,
}

/// What to do next on the way to leaving a scan out.
#[derive(Clone, Copy, Debug, PartialEq, Eq, Structural)]
pub enum FreshStep {
    ListDatabases,
    CountDocuments,
    CheckCache,
    CheckAnalytics,
    /// Everything holds as far as it is not a matter of vectors.
    CheckVectors,
    /// The scan cannot be left out.
    Scan,
}

/// No database can have changed: there are none, or they are left out.
pub open spec fn no_databases(facts: FreshFacts) -> bool {
    facts.include_opencode ==> facts.databases == Some(DatabaseListing::Found(0))
}

/// The next step towards leaving a scan out, by what is known so far.
pub open spec fn fresh_decision(facts: FreshFacts) -> FreshStep {
    if facts.pending {
        FreshStep::Scan
    } else if facts.include_opencode && facts.databases is None {
        FreshStep::ListDatabases
    } else if !no_databases(facts) {
        FreshStep::Scan
    } else if facts.documents is None {
        FreshStep::CountDocuments
    } else if facts.documents == Some(0u64) {
        FreshStep::Scan
    } else if facts.fresh is None {
        FreshStep::CheckCache
    } else if facts.fresh == Some(false) {
        FreshStep::Scan
    } else if facts.analytics_complete is None {
        FreshStep::CheckAnalytics
    } else if facts.analytics_complete == Some(false) {
        FreshStep::Scan
    } else {
        FreshStep::CheckVectors
    }
}

/// The next step towards leaving a scan out. The questions are asked in turn, and the first
/// answer that asks for a scan ends them.
pub fn fresh_step(facts: &FreshFacts) -> (step: FreshStep)
    ensures
        step == fresh_decision(*facts),
        step == (if facts.pending {
            FreshStep::Scan
        } else if facts.include_opencode && facts.databases is None {
            FreshStep::ListDatabases
        } else if !no_databases(*facts) {
            FreshStep::Scan
        } else if facts.documents is None {
            FreshStep::CountDocuments
        } else if facts.documents == Some(0u64) {
            FreshStep::Scan
        } else if facts.fresh is None {
            FreshStep::CheckCache
        } else if facts.fresh == Some(false) {
            FreshStep::Scan
        } else if facts.analytics_complete is None {
            FreshStep::CheckAnalytics
        } else if facts.analytics_complete == Some(false) {
            FreshStep::Scan
        } else {
            FreshStep::CheckVectors
        }),
        step == FreshStep::CheckVectors ==> !facts.pending && no_databases(*facts)
            && facts.documents is Some && facts.documents != Some(0u64) && facts.fresh == Some(
            true,
        ) && facts.analytics_complete == Some(true),
{
    if facts.pending {
        return FreshStep::Scan;
    }
    if facts.include_opencode {
        match facts.databases {
            None => {
                return FreshStep::ListDatabases;
            },
            Some(DatabaseListing::Failed) => {
                return FreshStep::Scan;
            },
            Some(DatabaseListing::Found(count)) => {
                if count != 0 {
                    return FreshStep::Scan;
                }
            },
        }
    }
    match facts.documents {
        None => {
            return FreshStep::CountDocuments;
        },
        Some(count) => {
            if count == 0 {
                return FreshStep::Scan;
            }
        },
    }
    match facts.fresh {
        None => FreshStep::CheckCache,
        Some(false) => FreshStep::Scan,
        Some(true) => match facts.analytics_complete {
            None => FreshStep::CheckAnalytics,
            Some(true) => FreshStep::CheckVectors,
            Some(false) => FreshStep::Scan,
        },
    }
}

/// What is known of the vector index.
pub struct VectorFacts {
    pub exists: bool,
    /// The model and the dimensions of the opened index.
    pub opened: Option<(Option<String>, usize)>,
    /// Every record that needs an embedding has one.
    pub covered: Option<bool>,
}

/// What to do next on the way to leaving the index alone.
#[derive(Clone, Copy, Debug, PartialEq, Eq, Structural)]
pub enum NoopStep {
    OpenVectors,
    CheckCoverage,
    /// The index is up to date.
    Skip,
    /// The index has to be brought up to date.
    Refresh,
}

/// The opened index was built with this model and these dimensions.
pub open spec fn built_with(
    opened: (Option<String>, usize),
    model: Seq<char>,
    dimensions: usize,
) -> bool {
    opened.0.deep_view() == Some(model) && opened.1 == dimensions
}

/// The next step towards leaving the index alone, by what is known so far.
pub open spec fn noop_decision(
    embeddings: bool,
    model: Seq<char>,
    dimensions: Option<usize>,
    vectors: VectorFacts,
) -> NoopStep {
    if !embeddings {
        NoopStep::Skip
    } else if dimensions is None || !vectors.exists {
        NoopStep::Refresh
    } else {
        match vectors.opened {
            None => NoopStep::OpenVectors,
            Some(opened) => if !built_with(opened, model, dimensions.unwrap()) {
                NoopStep::Refresh
            } else {
                match vectors.covered {
                    None => NoopStep::CheckCoverage,
                    Some(true) => NoopStep::Skip,
                    Some(false) => NoopStep::Refresh,
                }
            },
        }
    }
}

/// The next step towards leaving the index alone: without embeddings there is nothing to do,
/// and otherwise an index of the same model and dimensions has to cover every record.
pub fn noop_step(
    embeddings: bool,
    model: &String,
    dimensions: Option<usize>,
    vectors: &VectorFacts,
) -> (step: NoopStep)
    ensures
        step == noop_decision(embeddings, model@, dimensions, *vectors),
        step == (if !embeddings {
            NoopStep::Skip
        } else {
            match dimensions {
                None => NoopStep::Refresh,
                Some(dimensions) => if !vectors.exists {
                    NoopStep::Refresh
                } else {
                    match vectors.opened {
                        None => NoopStep::OpenVectors,
                        Some(opened) => if !built_with(opened, model@, dimensions) {
                            NoopStep::Refresh
                        } else {
                            match vectors.covered {
                                None => NoopStep::CheckCoverage,
                                Some(covered) => if covered {
                                    NoopStep::Skip
                                } else {
                                    NoopStep::Refresh
                                },
                            }
                        },
                    }
                },
            }
        }),
{
    if !embeddings {
        return NoopStep::Skip;
    }
    let dimensions = match dimensions {
        None => {
            return NoopStep::Refresh;
        },
        Some(dimensions) => dimensions,
    };
    if !vectors.exists {
        return NoopStep::Refresh;
    }
    match &vectors.opened {
        None => NoopStep::OpenVectors,
        Some((built, built_dimensions)) => {
            let same_model = match built {
                None => false,
                Some(name) => equals(name.as_str(), model.as_str()),
            };
            if !same_model || *built_dimensions != dimensions {
                return NoopStep::Refresh;
            }
            match vectors.covered {
                None => NoopStep::CheckCoverage,
                Some(true) => NoopStep::Skip,
                Some(false) => NoopStep::Refresh,
            }
        },
    }
}

/// Whether a record needs an embedding: its role is embedded, and there is a text to embed.
pub fn record_needs_embedding(embedding_role: bool, text: &str) -> (result: bool)
    ensures
        result == (embedding_role && text@.len() > 0),
{
    embedding_role && !text.is_empty()
}

/// A record as far as its embedding is concerned.
pub struct RecordCoverage {
    pub embedding_role: bool,
    pub text: String,
    pub embedded: bool,
}

/// The record needs no embedding, or has one.
pub open spec fn covered(record: RecordCoverage) -> bool {
    record.embedding_role && record.text@.len() > 0 ==> record.embedded
}

/// Whether one more record leaves every record covered.
pub fn still_covered(covered_so_far: bool, record: &RecordCoverage) -> (result: bool)
    ensures
        result == (covered_so_far && covered(*record)),
{
    covered_so_far && !(record_needs_embedding(record.embedding_role, record.text.as_str())
        && !record.embedded)
}

/// Whether every record that needs an embedding has one.
pub fn vector_index_covers_embeddable_records(records: &Vec<RecordCoverage>) -> (result: bool)
    ensures
        result == (forall|i: int| 0 <= i < records@.len() ==> covered(#[trigger] records@[i])),
{
    let mut covers_all = true;
    let mut i: usize = 0;
    while i < records.len()
        invariant
            i <= records@.len(),
            covers_all == (forall|k: int| 0 <= k < i ==> covered(#[trigger] records@[k])),
        decreases records@.len() - i,
    {
        covers_all = still_covered(covers_all, &records[i]);
        i += 1;
    }
    covers_all
}

/// Some file is read again because its parser changed.
pub open spec fn parser_changed(tasks: Seq<TaskModel>) -> bool {
    exists|i: int| 0 <= i < tasks.len() && (#[trigger] tasks[i]).change == FileChange::ParserChanged
}

/// Whether the vectors are built anew, and with which model.
pub struct VectorMigration {
    pub rebuild: bool,
    pub model: String,
}

/// The vectors are built anew.
pub open spec fn rebuilds_vectors(vectors_exist: bool, tasks: Seq<TaskModel>) -> bool {
    vectors_exist && parser_changed(tasks)
}

/// The model to build vectors with.
pub open spec fn vector_model(
    rebuild: bool,
    recorded: Option<Seq<char>>,
    configured: Seq<char>,
) -> Seq<char> {
    if rebuild && recorded is Some {
        recorded.unwrap()
    } else {
        configured
    }
}

/// Decides about the vectors: they are built anew if a parser changed and there are any, and
/// then with the model they were built with, as far as that is known.
pub fn vector_migration(
    vectors_exist: bool,
    recorded_model: Option<&String>,
    tasks: &Vec<FileTask>,
    configured_model: &String,
) -> (migration: VectorMigration)
    ensures
        migration.rebuild == rebuilds_vectors(vectors_exist, tasks.deep_view()),
        migration.model@ == vector_model(
            migration.rebuild,
            match recorded_model {
                Some(model) => Some(model@),
                None => None,
            },
            configured_model@,
        ),
        migration.rebuild == (vectors_exist && parser_changed(tasks.deep_view())),
        migration.model@ == (match recorded_model {
            Some(model) => if migration.rebuild {
                model@
            } else {
                configured_model@
            },
            None => configured_model@,
        }),
{
    let ghost models = tasks.deep_view();
    let mut changed = false;
    let mut i: usize = 0;
    while i < tasks.len()
        invariant
            i <= tasks@.len(),
            models == tasks.deep_view(),
            changed == (exists|k: int|
                0 <= k < i && (#[trigger] models[k]).change == FileChange::ParserChanged),
        decreases tasks@.len() - i,
    {
        assert(models[i as int] == tasks@[i as int].deep_view());
        if tasks[i].parser_version_invalidated() {
            changed = true;
        }
        i += 1;
    }
    let rebuild = changed && vectors_exist;
    let model = match recorded_model {
        Some(model) => if rebuild {
            model.duplicate()
        } else {
            configured_model.duplicate()
        },
        None => configured_model.duplicate(),
    };
    VectorMigration { rebuild, model }
}

/// A scan is left out only if no refresh was interrupted, no database can have changed, the
/// index holds something, the last scan is young enough and the analytics are complete. As soon
/// as one of these is known not to hold, everything is scanned, and as long as one is not known
/// it is asked for.
pub proof fn law_scans_are_left_out_only_if_everything_holds(facts: FreshFacts)
    ensures
        ({
            let step = fresh_decision(facts);
            let quiet = !facts.include_opencode || facts.databases == Some(
                DatabaseListing::Found(0),
            );
            &&& step == FreshStep::CheckVectors <==> !facts.pending && quiet
                && facts.documents is Some && facts.documents.unwrap() > 0 && facts.fresh == Some(
                true,
            ) && facts.analytics_complete == Some(true)
            &&& step == FreshStep::ListDatabases <==> !facts.pending && facts.include_opencode
                && facts.databases is None
            &&& step == FreshStep::CountDocuments <==> !facts.pending && quiet
                && facts.documents is None
            &&& step == FreshStep::CheckCache <==> !facts.pending && quiet && facts.documents is Some
                && facts.documents.unwrap() > 0 && facts.fresh is None
            &&& step == FreshStep::CheckAnalytics <==> !facts.pending && quiet
                && facts.documents is Some && facts.documents.unwrap() > 0 && facts.fresh == Some(
                true,
            ) && facts.analytics_complete is None
            &&& facts.pending ==> step == FreshStep::Scan
            &&& facts.include_opencode && facts.databases is Some && facts.databases != Some(
                DatabaseListing::Found(0),
            ) ==> step == FreshStep::Scan
        }),
{
    if let Some(fresh) = facts.fresh {
        assert(fresh || facts.fresh == Some(false));
    }
    if let Some(complete) = facts.analytics_complete {
        assert(complete || facts.analytics_complete == Some(false));
    }
    if let Some(documents) = facts.documents {
        assert(documents > 0 || facts.documents == Some(0u64));
    }
}

/// The index is left alone only if embeddings are off, or if there is a vector index of the
/// configured model and its dimensions that covers every record.
pub proof fn law_indexes_are_left_alone_only_if_covered(
    embeddings: bool,
    model: Seq<char>,
    dimensions: Option<usize>,
    vectors: VectorFacts,
)
    ensures
        ({
            let step = noop_decision(embeddings, model, dimensions, vectors);
            let usable = dimensions is Some && vectors.exists;
            let fitting = vectors.opened is Some && vectors.opened.unwrap().0 is Some
                && vectors.opened.unwrap().0.unwrap()@ == model && Some(vectors.opened.unwrap().1)
                == dimensions;
            &&& step == NoopStep::Skip <==> !embeddings || (usable && fitting && vectors.covered
                == Some(true))
            &&& step == NoopStep::OpenVectors <==> embeddings && usable && vectors.opened is None
            &&& step == NoopStep::CheckCoverage <==> embeddings && usable && fitting
                && vectors.covered is None
            &&& step == NoopStep::Refresh <==> embeddings && (!usable || (vectors.opened is Some
                && !fitting) || (fitting && vectors.covered == Some(false)))
        }),
{
}

/// A record is covered unless it is embedded by role, has a text, and has no embedding.
pub proof fn law_covered_records(record: RecordCoverage)
    ensures
        !covered(record) <==> record.embedding_role && record.text@.len() > 0 && !record.embedded,
{
}

/// Vectors are built anew exactly if there are any and some file is read again because its
/// parser changed. Then the model that they were built with is kept, as far as it is known, and
/// otherwise the configured one is used.
pub proof fn law_changed_parsers_rebuild_vectors(
    vectors_exist: bool,
    tasks: Seq<TaskModel>,
    recorded: Option<Seq<char>>,
    configured: Seq<char>,
    i: int,
)
    ensures
        vectors_exist && 0 <= i < tasks.len() && tasks[i].change == FileChange::ParserChanged
            ==> rebuilds_vectors(vectors_exist, tasks),
        !vectors_exist || (forall|k: int|
            0 <= k < tasks.len() ==> (#[trigger] tasks[k]).change != FileChange::ParserChanged)
            ==> !rebuilds_vectors(vectors_exist, tasks),
        recorded is Some ==> vector_model(true, recorded, configured) == recorded.unwrap(),
        vector_model(false, recorded, configured) == configured,
        vector_model(true, None, configured) == configured,
{
}

} // verus!
