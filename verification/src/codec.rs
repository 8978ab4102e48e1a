//! Checkpoint payloads. Fields that this library does not know are extensions of newer or
//! other writers: they stay attached to their entity across updates, while known fields are
//! always the current ones.

use vstd::prelude::*;
use crate::keys::TextMap;
use crate::model::Modeled;
use crate::sorted::{lemma_take_members, SortedMap};
use crate::text::equals;

verus! {

/// The fields of a JSON object: each name with the JSON text of its value.
pub type Fields = TextMap<String>;

/// The model of [`Fields`].
pub type FieldsModel = Map<Seq<char>, Seq<char>>;

/// What a JSON object describes, which decides the fields that are known in it.
#[derive(Clone, Copy, Debug, PartialEq, Eq, Structural)]
pub enum Entity {
    State,
    File,
    Identity,
    ToolCall,
    Database,
}

/// The known fields of an entity.
pub open spec fn known_fields(entity: Entity) -> Set<Seq<char>> {
    match entity {
        Entity::State => set![
            "next_doc_id"@,
            "files"@,
            "opencode_databases"@,
        ],
        Entity::File => set![
            "size"@,
            "mtime"@,
            "offset"@,
            "turn_id"@,
            "legacy_turn_id"@,
            "claude_background"@,
            "parser_version"@,
            "pending_tool_calls"@,
            "identity"@,
            "codex_metadata_offsets"@,
        ],
        Entity::Identity => set![
            "sqlite_wal"@,
            "device"@,
            "inode"@,
            "prefix_sha256"@,
            "prefix_bytes"@,
            "modified_ns"@,
            "changed_ns"@,
        ],
        Entity::ToolCall => set![
            "tool_name"@,
            "tool_use_event_id"@,
            "tool_use_doc_id"@,
            "timestamp"@,
            "argument_sha256"@,
            "argument_bytes"@,
            "parent_event_id"@,
            "session_id"@,
            "source_tool_use_id"@,
            "source_tool_assistant_uuid"@,
        ],
        Entity::Database => set![
            "parser_version"@,
            "event_rowid"@,
            "event_id"@,
            "owned_session_ids"@,
        ],
    }
}

/// Whether `name` is a known field of an entity.
pub fn is_known(entity: Entity, name: &str) -> (result: bool)
    ensures
        result == known_fields(entity).contains(name@),
{
    match entity {
        Entity::State => equals(name, "next_doc_id")
            || equals(name, "files")
            || equals(name, "opencode_databases"),
        Entity::File => equals(name, "size")
            || equals(name, "mtime")
            || equals(name, "offset")
            || equals(name, "turn_id")
            || equals(name, "legacy_turn_id")
            || equals(name, "claude_background")
            || equals(name, "parser_version")
            || equals(name, "pending_tool_calls")
            || equals(name, "identity")
            || equals(name, "codex_metadata_offsets"),
        Entity::Identity => equals(name, "sqlite_wal")
            || equals(name, "device")
            || equals(name, "inode")
            || equals(name, "prefix_sha256")
            || equals(name, "prefix_bytes")
            || equals(name, "modified_ns")
            || equals(name, "changed_ns"),
        Entity::ToolCall => equals(name, "tool_name")
            || equals(name, "tool_use_event_id")
            || equals(name, "tool_use_doc_id")
            || equals(name, "timestamp")
            || equals(name, "argument_sha256")
            || equals(name, "argument_bytes")
            || equals(name, "parent_event_id")
            || equals(name, "session_id")
            || equals(name, "source_tool_use_id")
            || equals(name, "source_tool_assistant_uuid"),
        Entity::Database => equals(name, "parser_version")
            || equals(name, "event_rowid")
            || equals(name, "event_id")
            || equals(name, "owned_session_ids"),
    }
}

/// The extensions among the fields of an entity.
pub open spec fn extensions_of(entity: Entity, fields: FieldsModel) -> FieldsModel {
    fields.remove_keys(known_fields(entity))
}

/// The current fields of an entity, with the extensions that its previous form carried.
pub open spec fn preserved(
    entity: Entity,
    current: FieldsModel,
    previous: Option<FieldsModel>,
) -> FieldsModel {
    match previous {
        Some(previous) => current.union_prefer_right(extensions_of(entity, previous)),
        None => current,
    }
}

/// The extensions among the fields of an entity.
pub fn extensions(entity: Entity, fields: &Fields) -> (extra: Fields)
    ensures
        extra.deep_view() == extensions_of(entity, fields.deep_view()),
{
    let extra: Fields = SortedMap::new();
    let extended = extend_extensions(entity, extra, fields);
    assert(Map::<Seq<char>, Seq<char>>::empty().union_prefer_right(
        extensions_of(entity, fields.deep_view()),
    ) =~= extensions_of(entity, fields.deep_view()));
    extended
}

fn extend_extensions(entity: Entity, target: Fields, fields: &Fields) -> (extended: Fields)
    ensures
        extended.deep_view() == target.deep_view().union_prefer_right(
            extensions_of(entity, fields.deep_view()),
        ),
{
    let mut extended = target;
    let count = fields.len();
    let ghost keys = fields.keys();
    let ghost model = fields.deep_view();
    let ghost base = target.deep_view();
    let mut i: usize = 0;
    assert(extended.deep_view() =~= base.union_prefer_right(
        extensions_of(entity, model).restrict(keys.take(0).to_set()),
    ));
    while i < count
        invariant
            i <= count,
            count == keys.len(),
            keys == fields.keys(),
            model == fields.deep_view(),
            model.dom() == keys.to_set(),
            keys.no_duplicates(),
            extended.deep_view() == base.union_prefer_right(
                extensions_of(entity, model).restrict(keys.take(i as int).to_set()),
            ),
        decreases count - i,
    {
        let name = fields.key_at(i);
        let known = is_known(entity, name.as_str());
        if !known {
            let value = fields.value_at(i);
            extended.insert(name.duplicate(), value.duplicate());
        }
        proof {
            lemma_take_members(keys, i as int);
            assert(extended.deep_view() =~= base.union_prefer_right(
                extensions_of(entity, model).restrict(keys.take(i + 1).to_set()),
            ));
        }
        i += 1;
    }
    assert(keys.take(i as int) =~= keys);
    assert(extensions_of(entity, model).restrict(keys.to_set()) =~= extensions_of(entity, model));
    extended
}

/// The current fields of an entity, with the extensions that its previous form carried.
pub fn preserve(entity: Entity, current: &Fields, previous: Option<&Fields>) -> (fields: Fields)
    ensures
        fields.deep_view() == preserved(entity, current.deep_view(), previous.deep_view()),
{
    let fields = current.duplicate();
    match previous {
        Some(previous) => extend_extensions(entity, fields, previous),
        None => fields,
    }
}

/// The stored form of a file's checkpoint.
pub struct FilePayload {
    /// All fields but the two below.
    pub fields: Fields,
    pub identity: Option<Fields>,
    pub pending_tool_calls: Option<TextMap<Fields>>,
}

/// The model of [`FilePayload`].
#[verifier::ext_equal]
pub struct PayloadModel {
    pub fields: FieldsModel,
    pub identity: Option<FieldsModel>,
    pub pending_tool_calls: Option<Map<Seq<char>, FieldsModel>>,
}

impl DeepView for FilePayload {
    type V = PayloadModel;

    open spec fn deep_view(&self) -> PayloadModel {
        PayloadModel {
            fields: self.fields.deep_view(),
            identity: self.identity.deep_view(),
            pending_tool_calls: self.pending_tool_calls.deep_view(),
        }
    }
}

impl Modeled for FilePayload {
    fn duplicate(&self) -> (copy: Self) {
        FilePayload {
            fields: self.fields.duplicate(),
            identity: self.identity.duplicate(),
            pending_tool_calls: self.pending_tool_calls.duplicate(),
        }
    }

    fn same(&self, other: &Self) -> (equal: bool) {
        self.fields.same(&other.fields) && self.identity.same(&other.identity)
            && self.pending_tool_calls.same(&other.pending_tool_calls)
    }
}

/// Each of the current entities, with the extensions of the previous one under the same key.
pub open spec fn preserved_each(
    entity: Entity,
    current: Map<Seq<char>, FieldsModel>,
    previous: Map<Seq<char>, FieldsModel>,
) -> Map<Seq<char>, FieldsModel> {
    Map::new(
        |key: Seq<char>| current.contains_key(key),
        |key: Seq<char>|
            preserved(
                entity,
                current[key],
                if previous.contains_key(key) {
                    Some(previous[key])
                } else {
                    None
                },
            ),
    )
}

/// The optional fields that a previous payload holds in a place.
pub open spec fn previous_calls(previous: Option<PayloadModel>) -> Map<Seq<char>, FieldsModel> {
    match previous {
        Some(payload) => match payload.pending_tool_calls {
            Some(calls) => calls,
            None => Map::empty(),
        },
        None => Map::empty(),
    }
}

/// The payload to store for a file: its current fields, identity and pending calls, each with
/// the extensions that its previous form carried. Calls that are no longer pending are gone
/// with their extensions.
pub open spec fn merged_file(
    current: PayloadModel,
    previous: Option<PayloadModel>,
) -> PayloadModel {
    PayloadModel {
        fields: preserved(
            Entity::File,
            current.fields,
            match previous {
                Some(payload) => Some(payload.fields),
                None => None,
            },
        ),
        identity: match current.identity {
            Some(identity) => Some(
                preserved(
                    Entity::Identity,
                    identity,
                    match previous {
                        Some(payload) => payload.identity,
                        None => None,
                    },
                ),
            ),
            None => None,
        },
        pending_tool_calls: match current.pending_tool_calls {
            Some(calls) => Some(preserved_each(Entity::ToolCall, calls, previous_calls(previous))),
            None => None,
        },
    }
}

fn preserve_each(
    entity: Entity,
    current: &TextMap<Fields>,
    previous: Option<&TextMap<Fields>>,
) -> (merged: TextMap<Fields>)
    ensures
        merged.deep_view() == preserved_each(
            entity,
            current.deep_view(),
            match previous.deep_view() {
                Some(entities) => entities,
                None => Map::empty(),
            },
        ),
{
    let ghost earlier = match previous.deep_view() {
        Some(entities) => entities,
        None => Map::empty(),
    };
    let ghost model = current.deep_view();
    let ghost wanted = preserved_each(entity, model, earlier);
    let mut merged: TextMap<Fields> = SortedMap::new();
    let count = current.len();
    let ghost keys = current.keys();
    let mut i: usize = 0;
    assert(merged.deep_view() =~= wanted.restrict(keys.take(0).to_set()));
    while i < count
        invariant
            i <= count,
            count == keys.len(),
            keys == current.keys(),
            model == current.deep_view(),
            model.dom() == keys.to_set(),
            keys.no_duplicates(),
            wanted == preserved_each(entity, model, earlier),
            earlier == (match previous.deep_view() {
                Some(entities) => entities,
                None => Map::<Seq<char>, FieldsModel>::empty(),
            }),
            merged.deep_view() == wanted.restrict(keys.take(i as int).to_set()),
        decreases count - i,
    {
        let key = current.key_at(i);
        let old = match previous {
            Some(entities) => entities.get(key),
            None => None,
        };
        let fields = preserve(entity, current.value_at(i), old);
        merged.insert(key.duplicate(), fields);
        proof {
            lemma_take_members(keys, i as int);
            assert(merged.deep_view() =~= wanted.restrict(keys.take(i + 1).to_set()));
        }
        i += 1;
    }
    assert(keys.take(i as int) =~= keys);
    assert(wanted.restrict(keys.to_set()) =~= wanted);
    merged
}

/// The payload to store for a file, given its current form and the one stored before.
pub fn file_payload(current: &FilePayload, previous: Option<&FilePayload>) -> (payload:
    FilePayload)
    ensures
        payload.deep_view() == merged_file(current.deep_view(), previous.deep_view()),
{
    let old_fields = match previous {
        Some(payload) => Some(&payload.fields),
        None => None,
    };
    let old_identity = match previous {
        Some(payload) => payload.identity.as_ref(),
        None => None,
    };
    let old_calls = match previous {
        Some(payload) => payload.pending_tool_calls.as_ref(),
        None => None,
    };
    FilePayload {
        fields: preserve(Entity::File, &current.fields, old_fields),
        identity: match &current.identity {
            Some(identity) => Some(preserve(Entity::Identity, identity, old_identity)),
            None => None,
        },
        pending_tool_calls: match &current.pending_tool_calls {
            Some(calls) => Some(preserve_each(Entity::ToolCall, calls, old_calls)),
            None => None,
        },
    }
}

/// The databases to store, given their current forms and those stored before.
pub fn database_payload(databases: &TextMap<Fields>, previous: &TextMap<Fields>) -> (payload:
    TextMap<Fields>)
    ensures
        payload.deep_view() == preserved_each(
            Entity::Database,
            databases.deep_view(),
            previous.deep_view(),
        ),
{
    preserve_each(Entity::Database, databases, Some(previous))
}

/// The extensions of a whole state document.
pub fn legacy_extras(fields: &Fields) -> (extra: Fields)
    ensures
        extra.deep_view() == extensions_of(Entity::State, fields.deep_view()),
{
    extensions(Entity::State, fields)
}

/// An update keeps every extension, and every known field is the current one: one that is no
/// longer set does not come back.
pub proof fn law_update_keeps_extensions_only(
    entity: Entity,
    current: FieldsModel,
    previous: FieldsModel,
    name: Seq<char>,
)
    requires
        current.dom().subset_of(known_fields(entity)),
    ensures
        ({
            let updated = preserved(entity, current, Some(previous));
            if known_fields(entity).contains(name) {
                updated.contains_key(name) == current.contains_key(name) && (current.contains_key(
                    name,
                ) ==> updated[name] == current[name])
            } else {
                updated.contains_key(name) == previous.contains_key(name)
                    && (previous.contains_key(name) ==> updated[name] == previous[name])
            }
        }),
{
}

/// Storing the same current fields twice changes nothing the second time.
pub proof fn law_update_is_idempotent(
    entity: Entity,
    current: FieldsModel,
    previous: Option<FieldsModel>,
)
    requires
        current.dom().subset_of(known_fields(entity)),
    ensures
        preserved(entity, current, Some(preserved(entity, current, previous))) == preserved(
            entity,
            current,
            previous,
        ),
{
    assert(preserved(entity, current, Some(preserved(entity, current, previous))) =~= preserved(
        entity,
        current,
        previous,
    ));
}

/// Extensions last across any number of updates: the second update finds what the first one
/// kept.
pub proof fn law_extensions_outlast_updates(
    entity: Entity,
    first: FieldsModel,
    second: FieldsModel,
    previous: FieldsModel,
)
    requires
        first.dom().subset_of(known_fields(entity)),
        second.dom().subset_of(known_fields(entity)),
    ensures
        preserved(entity, second, Some(preserved(entity, first, Some(previous)))) == preserved(
            entity,
            second,
            Some(previous),
        ),
{
    assert(preserved(entity, second, Some(preserved(entity, first, Some(previous))))
        =~= preserved(entity, second, Some(previous)));
}

/// The name belongs to the library: it is one of the fields that an entity of this kind has.
pub open spec fn own_name(entity: Entity, name: Seq<char>) -> bool {
    match entity {
        Entity::State => name == "next_doc_id"@ || name == "files"@ || name
            == "opencode_databases"@,
        Entity::File => name == "size"@ || name == "mtime"@ || name == "offset"@ || name
            == "turn_id"@ || name == "legacy_turn_id"@ || name == "claude_background"@ || name
            == "parser_version"@ || name == "pending_tool_calls"@ || name == "identity"@ || name
            == "codex_metadata_offsets"@,
        Entity::Identity => name == "sqlite_wal"@ || name == "device"@ || name == "inode"@ || name
            == "prefix_sha256"@ || name == "prefix_bytes"@ || name == "modified_ns"@ || name
            == "changed_ns"@,
        Entity::ToolCall => name == "tool_name"@ || name == "tool_use_event_id"@ || name
            == "tool_use_doc_id"@ || name == "timestamp"@ || name == "argument_sha256"@ || name
            == "argument_bytes"@ || name == "parent_event_id"@ || name == "session_id"@ || name
            == "source_tool_use_id"@ || name == "source_tool_assistant_uuid"@,
        Entity::Database => name == "parser_version"@ || name == "event_rowid"@ || name
            == "event_id"@ || name == "owned_session_ids"@,
    }
}

/// What the library writes it reads back: an update decides the fields that are its own, and a
/// field that it leaves out is gone, whatever was stored. Every other field that was stored is
/// kept as it was. Extensions are those other fields.
pub proof fn law_updates_decide_their_own_fields(
    entity: Entity,
    current: FieldsModel,
    previous: FieldsModel,
    name: Seq<char>,
)
    ensures
        ({
            let updated = preserved(entity, current, Some(previous));
            let extra = extensions_of(entity, previous);
            &&& own_name(entity, name) ==> updated.contains_key(name) == current.contains_key(name)
            &&& own_name(entity, name) && current.contains_key(name) ==> updated[name]
                == current[name]
            &&& !own_name(entity, name) && previous.contains_key(name) ==> updated.contains_key(
                name,
            ) && updated[name] == previous[name]
            &&& !previous.contains_key(name) ==> updated.contains_key(name) == current.contains_key(
                name,
            )
            &&& !previous.contains_key(name) && current.contains_key(name) ==> updated[name]
                == current[name]
            &&& extra.contains_key(name) <==> previous.contains_key(name) && !own_name(entity, name)
            &&& extra.contains_key(name) ==> extra[name] == previous[name]
        }),
        preserved(entity, current, None) == current,
{
}

/// A file row is updated as a whole: its own fields and those of its identity and of its pending
/// calls come from the update, and so do the calls that there are. What else was stored in the
/// row, in its identity and in a call that is still pending is kept.
pub proof fn law_file_rows_are_updated_throughout(
    current: PayloadModel,
    previous: PayloadModel,
    name: Seq<char>,
    call: Seq<char>,
)
    ensures
        ({
            let row = merged_file(current, Some(previous));
            let known = previous.identity;
            &&& own_name(Entity::File, name) ==> row.fields.contains_key(name)
                == current.fields.contains_key(name) && (current.fields.contains_key(name)
                ==> row.fields[name] == current.fields[name])
            &&& !own_name(Entity::File, name) && previous.fields.contains_key(name)
                ==> row.fields.contains_key(name) && row.fields[name] == previous.fields[name]
            &&& row.identity is Some == current.identity is Some
            &&& current.identity is Some && known is None ==> row.identity == current.identity
            &&& current.identity is Some && own_name(Entity::Identity, name)
                ==> row.identity.unwrap().contains_key(name)
                == current.identity.unwrap().contains_key(name) && (
            current.identity.unwrap().contains_key(name) ==> row.identity.unwrap()[name]
                == current.identity.unwrap()[name])
            &&& current.identity is Some && known is Some && !own_name(Entity::Identity, name)
                && known.unwrap().contains_key(name) ==> row.identity.unwrap().contains_key(name)
                && row.identity.unwrap()[name] == known.unwrap()[name]
            &&& row.pending_tool_calls is Some == current.pending_tool_calls is Some
            &&& current.pending_tool_calls is Some ==> {
                let calls = row.pending_tool_calls.unwrap();
                let wanted = current.pending_tool_calls.unwrap();
                &&& calls.contains_key(call) == wanted.contains_key(call)
                &&& wanted.contains_key(call) && own_name(Entity::ToolCall, name)
                    ==> calls[call].contains_key(name) == wanted[call].contains_key(name) && (
                wanted[call].contains_key(name) ==> calls[call][name] == wanted[call][name])
                &&& wanted.contains_key(call) && previous.pending_tool_calls is Some
                    && previous.pending_tool_calls.unwrap().contains_key(call) && !own_name(
                    Entity::ToolCall,
                    name,
                ) && previous.pending_tool_calls.unwrap()[call].contains_key(name)
                    ==> calls[call].contains_key(name) && calls[call][name]
                    == previous.pending_tool_calls.unwrap()[call][name]
                &&& wanted.contains_key(call) && (previous.pending_tool_calls is None
                    || !previous.pending_tool_calls.unwrap().contains_key(call)) ==> calls[call]
                    == wanted[call]
            }
        }),
        merged_file(current, None) == current,
{
    let fresh = merged_file(current, None);
    if current.pending_tool_calls is Some {
        assert(fresh.pending_tool_calls.unwrap() =~= current.pending_tool_calls.unwrap());
    }
}

/// The states of databases are updated one by one: those of the update stay, each keeps what
/// else was stored with it, and those that the update leaves out are gone.
pub proof fn law_database_states_are_updated_one_by_one(
    entity: Entity,
    current: Map<Seq<char>, FieldsModel>,
    previous: Map<Seq<char>, FieldsModel>,
    key: Seq<char>,
    name: Seq<char>,
)
    ensures
        ({
            let updated = preserved_each(entity, current, previous);
            &&& updated.contains_key(key) == current.contains_key(key)
            &&& current.contains_key(key) && !previous.contains_key(key) ==> updated[key]
                == current[key]
            &&& current.contains_key(key) && own_name(entity, name) ==> updated[key].contains_key(
                name,
            ) == current[key].contains_key(name) && (current[key].contains_key(name)
                ==> updated[key][name] == current[key][name])
            &&& current.contains_key(key) && previous.contains_key(key) && !own_name(entity, name)
                && previous[key].contains_key(name) ==> updated[key].contains_key(name)
                && updated[key][name] == previous[key][name]
        }),
{
}

} // verus!
