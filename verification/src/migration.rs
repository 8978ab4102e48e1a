//! Opening the checkpoint database for writing, and the steps that move authority to it. Until
//! the marker is published the old authority stays in force, so that a migration which stops
//! anywhere loses nothing.

use vstd::prelude::*;
use crate::lifecycle::{
    archive_name, archive_name_of, digest_text, legacy_origin, receipt_text, render_receipt,
    Authority, AuthorityModel,
};
use crate::outside::sha256_of;
use crate::text::hex_of;

verus! {

/// How opening a writer goes on after the first look at the authority.
pub enum FirstLook {
    /// The database has authority.
    Open(String),
    /// There is nothing to open, and nothing may be initialized.
    Refuse,
    /// The lifecycle lock is taken exclusively, and the authority looked at again.
    Lock,
}

/// The model of [`FirstLook`].
pub enum LookModel {
    Open(Seq<char>),
    Refuse,
    Lock,
}

impl DeepView for FirstLook {
    type V = LookModel;

    open spec fn deep_view(&self) -> LookModel {
        match self {
            FirstLook::Open(identity) => LookModel::Open(identity@),
            FirstLook::Refuse => LookModel::Refuse,
            FirstLook::Lock => LookModel::Lock,
        }
    }
}

/// How opening a writer goes on after the first look.
pub open spec fn looked_at(authority: AuthorityModel, allow_initialize: bool) -> LookModel {
    match authority {
        AuthorityModel::Marker(identity) => LookModel::Open(identity),
        AuthorityModel::Missing => if allow_initialize {
            LookModel::Lock
        } else {
            LookModel::Refuse
        },
        AuthorityModel::Legacy => LookModel::Lock,
    }
}

/// Decides how opening a writer goes on after the first look at the authority.
pub fn first_look(authority: &Authority, allow_initialize: bool) -> (look: FirstLook)
    ensures
        look.deep_view() == looked_at(authority.deep_view(), allow_initialize),
        match (authority.deep_view(), look) {
            (AuthorityModel::Marker(identity), FirstLook::Open(opened)) => opened@ == identity,
            (AuthorityModel::Missing, FirstLook::Refuse) => !allow_initialize,
            (AuthorityModel::Missing, FirstLook::Lock) => allow_initialize,
            (AuthorityModel::Legacy, FirstLook::Lock) => true,
            _ => false,
        },
{
    match authority {
        Authority::Marker(identity) => FirstLook::Open(identity.clone()),
        Authority::Missing => if allow_initialize {
            FirstLook::Lock
        } else {
            FirstLook::Refuse
        },
        Authority::Legacy => FirstLook::Lock,
    }
}

/// How a reader is opened.
pub enum ReaderPlan {
    /// The document is read as it is.
    ReadDocument,
    /// Nothing is there: the state is empty, provided that a database which exists was left by
    /// an interrupted initialization.
    Empty,
    /// The database with this identity is opened.
    Open(String),
}

/// The model of [`ReaderPlan`].
pub enum ReaderModel {
    ReadDocument,
    Empty,
    Open(Seq<char>),
}

impl DeepView for ReaderPlan {
    type V = ReaderModel;

    open spec fn deep_view(&self) -> ReaderModel {
        match self {
            ReaderPlan::ReadDocument => ReaderModel::ReadDocument,
            ReaderPlan::Empty => ReaderModel::Empty,
            ReaderPlan::Open(identity) => ReaderModel::Open(identity@),
        }
    }
}

/// How a reader is opened.
pub open spec fn reader_plan(authority: AuthorityModel) -> ReaderModel {
    match authority {
        AuthorityModel::Legacy => ReaderModel::ReadDocument,
        AuthorityModel::Missing => ReaderModel::Empty,
        AuthorityModel::Marker(identity) => ReaderModel::Open(identity),
    }
}

/// Decides how a reader is opened.
pub fn plan_reader(authority: &Authority) -> (plan: ReaderPlan)
    ensures
        plan.deep_view() == reader_plan(authority.deep_view()),
        match (authority.deep_view(), plan) {
            (AuthorityModel::Legacy, ReaderPlan::ReadDocument) => true,
            (AuthorityModel::Missing, ReaderPlan::Empty) => true,
            (AuthorityModel::Marker(identity), ReaderPlan::Open(opened)) => opened@ == identity,
            _ => false,
        },
{
    match authority {
        Authority::Legacy => ReaderPlan::ReadDocument,
        Authority::Missing => ReaderPlan::Empty,
        Authority::Marker(identity) => ReaderPlan::Open(identity.clone()),
    }
}

/// Whether the authority still names the store that is being opened, once the lock is held.
pub fn still_authorized(authority: &Authority, identity: &str) -> (result: bool)
    ensures
        result == (authority.deep_view() == AuthorityModel::Marker(identity@)),
{
    match authority {
        Authority::Marker(current) => crate::text::equals(current.as_str(), identity),
        _ => false,
    }
}

/// Whether the authority is still missing, once the lock is held.
pub fn still_missing(authority: &Authority) -> (result: bool)
    ensures
        result == (authority.deep_view() == AuthorityModel::Missing),
{
    match authority {
        Authority::Missing => true,
        _ => false,
    }
}

/// One step of a migration.
pub enum MigrationStep {
    /// Keeps the exact bytes of the document under this name.
    Archive(String),
    /// Writes this receipt to the lifecycle lock and makes it durable.
    WriteReceipt(String),
    /// Replaces the contents of the database in one transaction.
    Import,
    /// Truncates the log of the database completely.
    Truncate,
    /// Makes the database and its directory durable.
    SyncDatabase,
    /// Replaces the authority file by the marker, atomically and durably.
    PublishMarker,
}

/// The model of [`MigrationStep`].
pub enum StepModel {
    Archive(Seq<char>),
    WriteReceipt(Seq<char>),
    Import,
    Truncate,
    SyncDatabase,
    PublishMarker,
}

impl DeepView for MigrationStep {
    type V = StepModel;

    open spec fn deep_view(&self) -> StepModel {
        match self {
            MigrationStep::Archive(name) => StepModel::Archive(name@),
            MigrationStep::WriteReceipt(text) => StepModel::WriteReceipt(text@),
            MigrationStep::Import => StepModel::Import,
            MigrationStep::Truncate => StepModel::Truncate,
            MigrationStep::SyncDatabase => StepModel::SyncDatabase,
            MigrationStep::PublishMarker => StepModel::PublishMarker,
        }
    }
}

/// A migration: the identity and origin of the new store, and the steps in their order.
pub struct Migration {
    pub identity: String,
    pub origin: String,
    pub steps: Vec<MigrationStep>,
}

/// The steps that every migration ends with.
pub open spec fn activation_steps() -> Seq<StepModel> {
    seq![
        StepModel::Import,
        StepModel::Truncate,
        StepModel::SyncDatabase,
        StepModel::PublishMarker,
    ]
}

/// The steps that migrate a document with these bytes.
pub open spec fn legacy_steps(raw: Seq<u8>) -> Seq<StepModel> {
    seq![StepModel::Archive(archive_name_of(raw))] + activation_steps()
}

/// The steps that initialize an empty store. The receipt comes first, unless one was left by
/// an earlier attempt.
pub open spec fn bootstrap_steps(identity: Seq<char>, resumed: bool) -> Seq<StepModel> {
    if resumed {
        activation_steps()
    } else {
        seq![StepModel::WriteReceipt(receipt_text(identity))] + activation_steps()
    }
}

fn push_activation(steps: &mut Vec<MigrationStep>)
    ensures
        final(steps).deep_view() == old(steps).deep_view() + activation_steps(),
{
    steps.push(MigrationStep::Import);
    steps.push(MigrationStep::Truncate);
    steps.push(MigrationStep::SyncDatabase);
    steps.push(MigrationStep::PublishMarker);
    assert(steps.deep_view() =~= old(steps).deep_view() + activation_steps());
}

/// Whether an initialization goes on with the database that is there: only where nothing has
/// authority, a store may be initialized, and an earlier attempt left a database. Its receipt
/// has to be validated first.
pub fn resumes_bootstrap(
    authority: &Authority,
    allow_initialize: bool,
    database_exists: bool,
) -> (result: bool)
    ensures
        result == (authority.deep_view() == AuthorityModel::Missing && allow_initialize
            && database_exists),
{
    still_missing(authority) && allow_initialize && database_exists
}

/// How opening a writer goes on once the lifecycle lock is held.
pub enum WriterPlan {
    Open(String),
    Refuse,
    Migrate(Migration),
}

/// The model of [`WriterPlan`].
pub enum WriterModel {
    Open(Seq<char>),
    Refuse,
    Migrate { identity: Seq<char>, origin: Seq<char>, steps: Seq<StepModel> },
}

impl DeepView for WriterPlan {
    type V = WriterModel;

    open spec fn deep_view(&self) -> WriterModel {
        match self {
            WriterPlan::Open(identity) => WriterModel::Open(identity@),
            WriterPlan::Refuse => WriterModel::Refuse,
            WriterPlan::Migrate(migration) => WriterModel::Migrate {
                identity: migration.identity@,
                origin: migration.origin@,
                steps: migration.steps.deep_view(),
            },
        }
    }
}

/// How opening a writer goes on once the lifecycle lock is held.
pub open spec fn writer_plan(
    authority: AuthorityModel,
    allow_initialize: bool,
    raw: Seq<u8>,
    resumed: Option<Seq<char>>,
    fresh: Seq<char>,
) -> WriterModel {
    match authority {
        AuthorityModel::Marker(identity) => WriterModel::Open(identity),
        AuthorityModel::Missing => if !allow_initialize {
            WriterModel::Refuse
        } else {
            let identity = match resumed {
                Some(identity) => identity,
                None => fresh,
            };
            WriterModel::Migrate {
                identity,
                origin: receipt_text(identity),
                steps: bootstrap_steps(identity, resumed is Some),
            }
        },
        AuthorityModel::Legacy => WriterModel::Migrate {
            identity: fresh,
            origin: legacy_origin(raw),
            steps: legacy_steps(raw),
        },
    }
}

/// Decides how opening a writer goes on once the lifecycle lock is held. `raw` holds the bytes
/// of the document that has authority, `resumed` the identity of a validated database that an
/// interrupted initialization left, and `fresh` a new identity.
pub fn plan_writer(
    authority: &Authority,
    allow_initialize: bool,
    raw: &[u8],
    resumed: Option<&str>,
    fresh: &str,
) -> (plan: WriterPlan)
    ensures
        plan.deep_view() == writer_plan(
            authority.deep_view(),
            allow_initialize,
            raw@,
            match resumed {
                Some(identity) => Some(identity@),
                None => None,
            },
            fresh@,
        ),
        match (authority.deep_view(), plan) {
            (AuthorityModel::Marker(identity), WriterPlan::Open(opened)) => opened@ == identity,
            (AuthorityModel::Missing, WriterPlan::Refuse) => !allow_initialize,
            (AuthorityModel::Missing, WriterPlan::Migrate(migration)) => {
                &&& allow_initialize
                &&& migration.identity@ == (match resumed {
                    Some(identity) => identity@,
                    None => fresh@,
                })
                &&& migration.origin@ == receipt_text(migration.identity@)
                &&& migration.steps.deep_view() == bootstrap_steps(
                    migration.identity@,
                    resumed is Some,
                )
            },
            (AuthorityModel::Legacy, WriterPlan::Migrate(migration)) => {
                &&& migration.identity@ == fresh@
                &&& migration.origin@ == legacy_origin(raw@)
                &&& migration.steps.deep_view() == legacy_steps(raw@)
            },
            _ => false,
        },
{
    let mut steps: Vec<MigrationStep> = Vec::new();
    match authority {
        Authority::Marker(identity) => WriterPlan::Open(identity.clone()),
        Authority::Missing => {
            if !allow_initialize {
                return WriterPlan::Refuse;
            }
            let identity = match resumed {
                Some(identity) => {
                    assert(steps.deep_view() + activation_steps() =~= activation_steps());
                    String::from_str(identity)
                },
                None => {
                    steps.push(MigrationStep::WriteReceipt(render_receipt(fresh)));
                    assert(steps.deep_view() =~= seq![
                        StepModel::WriteReceipt(receipt_text(fresh@)),
                    ]);
                    String::from_str(fresh)
                },
            };
            push_activation(&mut steps);
            let origin = render_receipt(identity.as_str());
            WriterPlan::Migrate(Migration { identity, origin, steps })
        },
        Authority::Legacy => {
            steps.push(MigrationStep::Archive(archive_name(raw)));
            assert(steps.deep_view() =~= seq![StepModel::Archive(archive_name_of(raw@))]);
            push_activation(&mut steps);
            let mut origin = String::from_str("legacy:");
            origin.append(digest_text(raw).as_str());
            WriterPlan::Migrate(Migration { identity: String::from_str(fresh), origin, steps })
        },
    }
}

/// A marker is always followed, and never replaced. Nothing is initialized without leave. A
/// document is migrated under a new identity: it is archived before anything else, and the marker
/// comes last. An initialization that was interrupted is resumed under its own identity, and one
/// that begins writes its receipt first.
pub proof fn law_authority_decides_how_to_open(
    authority: AuthorityModel,
    allow_initialize: bool,
    raw: Seq<u8>,
    resumed: Option<Seq<char>>,
    fresh: Seq<char>,
)
    ensures
        ({
            let plan = writer_plan(authority, allow_initialize, raw, resumed, fresh);
            let look = looked_at(authority, allow_initialize);
            let reader = reader_plan(authority);
            &&& authority matches AuthorityModel::Marker(identity) ==> plan == WriterModel::Open(
                identity,
            ) && look == LookModel::Open(identity) && reader == ReaderModel::Open(identity)
            &&& authority is Missing ==> reader is Empty
            &&& authority is Missing && !allow_initialize ==> plan is Refuse && look is Refuse
            &&& authority is Missing && allow_initialize ==> look is Lock && plan is Migrate
            &&& authority is Missing && allow_initialize && resumed is Some ==> plan->identity
                == resumed.unwrap() && plan->origin == "bootstrap:"@ + resumed.unwrap()
                && plan->steps.len() == 4 && plan->steps[0] is Import && plan->steps[3] is PublishMarker
            &&& authority is Missing && allow_initialize && resumed is None ==> plan->identity
                == fresh && plan->origin == "bootstrap:"@ + fresh && plan->steps.len() == 5
                && plan->steps[0] == StepModel::WriteReceipt("bootstrap:"@ + fresh)
                && plan->steps[1] is Import && plan->steps[4] is PublishMarker
            &&& authority is Legacy ==> reader is ReadDocument && look is Lock && plan is Migrate
                && plan->identity == fresh && plan->origin == "legacy:"@ + hex_of(sha256_of(raw))
                && plan->steps.len() == 5 && plan->steps[0] == StepModel::Archive(
                "ingest.legacy-"@ + hex_of(sha256_of(raw)) + ".json"@,
            ) && plan->steps[1] is Import && plan->steps[2] is Truncate
                && plan->steps[3] is SyncDatabase && plan->steps[4] is PublishMarker
        }),
{
}

} // verus!
