//! JSON values, as far as the transcript sources and the fingerprints read them.

use vstd::prelude::*;
use crate::keys::TextMap;
use crate::model::Modeled;
use crate::outside::{json_string, write_json_string};
use crate::sorted::{
    increasing, lemma_increasing_distinct, lemma_increasing_unique, SortedMap,
};
use crate::text::equals;

verus! {

/// A JSON value. Numbers are kept as they are written.
pub enum Json {
    Null,
    Bool(bool),
    Number(String),
    Text(String),
    Array(Vec<Json>),
    Object(Vec<(String, Json)>),
}

/// What a JSON value says, whatever the order of its members.
pub enum JsonModel {
    Null,
    Bool(bool),
    Number(Seq<char>),
    Text(Seq<char>),
    Array(Seq<JsonModel>),
    Object(Map<Seq<char>, JsonModel>),
}

impl Json {
    /// What the value says. Of two members with the same name the later one counts.
    pub open spec fn model(self) -> JsonModel
        decreases self, 0int,
    {
        match self {
            Json::Null => JsonModel::Null,
            Json::Bool(value) => JsonModel::Bool(value),
            Json::Number(digits) => JsonModel::Number(digits@),
            Json::Text(text) => JsonModel::Text(text@),
            Json::Array(items) => JsonModel::Array(items_model(items@, items@.len() as int)),
            Json::Object(fields) => JsonModel::Object(
                fields_model(fields@, fields@.len() as int),
            ),
        }
    }

    /// The members of every object stand in the order of their names, each name once.
    pub open spec fn in_order(self) -> bool
        decreases self, 0int,
    {
        match self {
            Json::Array(items) => items_in_order(items@, items@.len() as int),
            Json::Object(fields) => increasing::<String>(names(fields@)) && fields_in_order(
                fields@,
                fields@.len() as int,
            ),
            _ => true,
        }
    }
}

/// The names of members.
pub open spec fn names(fields: Seq<(String, Json)>) -> Seq<Seq<char>> {
    Seq::new(fields.len(), |i: int| fields[i].0@)
}

/// What the first `n` items say.
pub open spec fn items_model(items: Seq<Json>, n: int) -> Seq<JsonModel>
    decreases items, n,
{
    if n <= 0 || n > items.len() {
        Seq::empty()
    } else {
        items_model(items, n - 1).push(items[n - 1].model())
    }
}

/// What the first `n` members say.
pub open spec fn fields_model(fields: Seq<(String, Json)>, n: int) -> Map<Seq<char>, JsonModel>
    decreases fields, n,
{
    if n <= 0 || n > fields.len() {
        Map::empty()
    } else {
        fields_model(fields, n - 1).insert(fields[n - 1].0@, fields[n - 1].1.model())
    }
}

/// The first `n` items are in order.
pub open spec fn items_in_order(items: Seq<Json>, n: int) -> bool
    decreases items, n,
{
    n <= 0 || n > items.len() || (items_in_order(items, n - 1) && items[n - 1].in_order())
}

/// The first `n` members are in order.
pub open spec fn fields_in_order(fields: Seq<(String, Json)>, n: int) -> bool
    decreases fields, n,
{
    n <= 0 || n > fields.len() || (fields_in_order(fields, n - 1) && fields[n - 1].1.in_order())
}

/// The value of the first member with this name.
pub open spec fn member(fields: Seq<(String, Json)>, name: Seq<char>, from: int) -> Option<Json>
    decreases fields.len() - from,
{
    if from < 0 || from >= fields.len() {
        None
    } else if fields[from].0@ == name {
        Some(fields[from].1)
    } else {
        member(fields, name, from + 1)
    }
}

/// The text that a value is, if it is one.
pub open spec fn text_of(value: Option<Json>) -> Option<Seq<char>> {
    match value {
        Some(Json::Text(text)) => Some(text@),
        _ => None,
    }
}

fn find<'a>(fields: &'a Vec<(String, Json)>, name: &str) -> (value: Option<&'a Json>)
    ensures
        match value {
            Some(value) => member(fields@, name@, 0) == Some(*value),
            None => member(fields@, name@, 0) is None,
        },
{
    let mut i: usize = 0;
    while i < fields.len()
        invariant
            i <= fields@.len(),
            member(fields@, name@, 0) == member(fields@, name@, i as int),
        decreases fields@.len() - i,
    {
        if equals(fields[i].0.as_str(), name) {
            return Some(&fields[i].1);
        }
        i += 1;
    }
    None
}

/// The text of a member.
pub fn borrowed_string(object: &Vec<(String, Json)>, key: &str) -> (text: Option<String>)
    ensures
        text.deep_view() == text_of(member(object@, key@, 0)),
{
    match find(object, key) {
        Some(Json::Text(text)) => Some(text.duplicate()),
        _ => None,
    }
}

/// The texts that the first `n` items hold in their member `text`.
pub open spec fn item_texts(items: Seq<Json>, n: int) -> Seq<Seq<char>>
    decreases n,
{
    if n <= 0 {
        Seq::empty()
    } else {
        let rest = item_texts(items, n - 1);
        match items[n - 1] {
            Json::Object(fields) => match text_of(member(fields@, "text"@, 0)) {
                Some(text) => rest.push(text),
                None => rest,
            },
            _ => rest,
        }
    }
}

/// Texts one below the other.
pub open spec fn lines(parts: Seq<Seq<char>>) -> Seq<char>
    decreases parts.len(),
{
    if parts.len() == 0 {
        Seq::empty()
    } else if parts.len() == 1 {
        parts[0]
    } else {
        lines(parts.drop_last()).push('\n') + parts.last()
    }
}

/// The text of a content: a text itself, or the texts of its items.
pub open spec fn content_text(content: Option<Json>) -> Option<Seq<char>> {
    match content {
        Some(Json::Text(text)) => Some(text@),
        Some(Json::Array(items)) => {
            let parts = item_texts(items@, items@.len() as int);
            if parts.len() == 0 {
                None
            } else {
                Some(lines(parts))
            }
        },
        _ => None,
    }
}

fn joined_texts(items: &Vec<Json>) -> (text: Option<String>)
    ensures
        text.deep_view() == ({
            let parts = item_texts(items@, items@.len() as int);
            if parts.len() == 0 {
                None
            } else {
                Some(lines(parts))
            }
        }),
{
    let mut text = String::new();
    let mut found = false;
    let mut i: usize = 0;
    while i < items.len()
        invariant
            i <= items@.len(),
            found == (item_texts(items@, i as int).len() > 0),
            text@ == lines(item_texts(items@, i as int)),
        decreases items@.len() - i,
    {
        let ghost before = item_texts(items@, i as int);
        if let Json::Object(fields) = &items[i] {
            if let Some(Json::Text(part)) = find(fields, "text") {
                let ghost parts = before.push(part@);
                let ghost so_far = text@;
                if found {
                    text.append("\n");
                    proof {
                        reveal_strlit("\n");
                        assert(text@ =~= so_far.push('\n'));
                    }
                }
                text.append(part.as_str());
                proof {
                    assert(parts.drop_last() =~= before);
                    assert(parts.last() == part@);
                    if before.len() == 0 {
                        assert(text@ =~= parts[0]);
                    }
                    assert(text@ =~= lines(parts));
                }
                found = true;
            }
        }
        i += 1;
    }
    if found {
        Some(text)
    } else {
        None
    }
}

/// The text of a tool's result: its content, or the texts of its content's items one below the
/// other.
pub fn tool_result_text(block: &Json) -> (text: Option<String>)
    ensures
        text.deep_view() == (match block {
            Json::Object(fields) => content_text(member(fields@, "content"@, 0)),
            _ => None,
        }),
{
    match block {
        Json::Object(fields) => match find(fields, "content") {
            Some(Json::Text(text)) => Some(text.duplicate()),
            Some(Json::Array(items)) => joined_texts(items),
            _ => None,
        },
        _ => None,
    }
}

proof fn lemma_items_push(items: Seq<Json>, more: Json, n: int)
    requires
        0 <= n <= items.len(),
    ensures
        items_model(items.push(more), n) == items_model(items, n),
        items_in_order(items.push(more), n) == items_in_order(items, n),
    decreases n,
{
    if n > 0 {
        lemma_items_push(items, more, n - 1);
    }
}

/// The position of the last of the first `n` members with each name.
spec fn last_positions(fields: Seq<(String, Json)>, n: int) -> Map<Seq<char>, u64>
    decreases n,
{
    if n <= 0 {
        Map::empty()
    } else {
        last_positions(fields, n - 1).insert(fields[n - 1].0@, (n - 1) as u64)
    }
}

proof fn lemma_last_positions(fields: Seq<(String, Json)>, n: int)
    requires
        0 <= n <= fields.len(),
        fields.len() <= u64::MAX,
    ensures
        last_positions(fields, n).dom() == fields_model(fields, n).dom(),
        forall|name: Seq<char>| #[trigger]
            last_positions(fields, n).contains_key(name) ==> ({
                let at = last_positions(fields, n)[name];
                &&& at < n
                &&& fields[at as int].0@ == name
                &&& fields[at as int].1.model() == fields_model(fields, n)[name]
            }),
    decreases n,
{
    if n > 0 {
        lemma_last_positions(fields, n - 1);
    }
    assert(last_positions(fields, n).dom() =~= fields_model(fields, n).dom());
}

proof fn lemma_distinct_fields(fields: Seq<(String, Json)>, n: int)
    requires
        0 <= n <= fields.len(),
        names(fields).no_duplicates(),
    ensures
        forall|i: int|
            #![trigger fields[i]]
            0 <= i < n ==> fields_model(fields, n).contains_key(fields[i].0@) && fields_model(
                fields,
                n,
            )[fields[i].0@] == fields[i].1.model(),
        fields_model(fields, n).dom() == names(fields).take(n).to_set(),
    decreases n,
{
    if n > 0 {
        lemma_distinct_fields(fields, n - 1);
        crate::sorted::lemma_take_members(names(fields), n - 1);
        assert forall|i: int| 0 <= i < n - 1 implies (#[trigger] fields[i]).0@ != fields[n - 1].0@ by {
            assert(names(fields)[i] != names(fields)[n - 1]);
        }
        assert(names(fields)[n - 1] == fields[n - 1].0@);
    }
    assert(fields_model(fields, n).dom() =~= names(fields).take(n).to_set());
}

proof fn lemma_fields_in_order(fields: Seq<(String, Json)>, n: int)
    requires
        0 <= n <= fields.len(),
        forall|i: int| 0 <= i < fields.len() ==> (#[trigger] fields[i]).1.in_order(),
    ensures
        fields_in_order(fields, n),
    decreases n,
{
    if n > 0 {
        lemma_fields_in_order(fields, n - 1);
    }
}

/// The same value with the members of every object in the order of their names.
pub fn canonical_json(value: &Json) -> (canonical: Json)
    ensures
        canonical.model() == value.model(),
        canonical.in_order(),
    decreases value,
{
    match value {
        Json::Null => Json::Null,
        Json::Bool(value) => Json::Bool(*value),
        Json::Number(digits) => Json::Number(digits.duplicate()),
        Json::Text(text) => Json::Text(text.duplicate()),
        Json::Array(items) => {
            let mut list: Vec<Json> = Vec::new();
            let mut i: usize = 0;
            while i < items.len()
                invariant
                    i <= items@.len(),
                    list@.len() == i,
                    *value == Json::Array(*items),
                    items_model(list@, i as int) == items_model(items@, i as int),
                    items_in_order(list@, i as int),
                decreases items@.len() - i,
            {
                let ghost before = list@;
                assert(decreases_to!(*value => value->Array_0));
                assert(decreases_to!(*items => items@));
                assert(decreases_to!(items@ => items@[i as int]));
                let item = canonical_json(&items[i]);
                proof {
                    lemma_items_push(before, item, i as int);
                }
                list.push(item);
                i += 1;
            }
            Json::Array(list)
        },
        Json::Object(fields) => {
            let mut positions: TextMap<u64> = SortedMap::new();
            let mut i: usize = 0;
            while i < fields.len()
                invariant
                    i <= fields@.len(),
                    positions.deep_view() == last_positions(fields@, i as int),
                decreases fields@.len() - i,
            {
                positions.insert(fields[i].0.duplicate(), i as u64);
                i += 1;
            }
            let ghost model = fields_model(fields@, fields@.len() as int);
            proof {
                lemma_last_positions(fields@, fields@.len() as int);
            }
            let ghost keys = positions.keys();
            let total = fields.len();
            let count = positions.len();
            let mut list: Vec<(String, Json)> = Vec::new();
            let mut k: usize = 0;
            while k < count
                invariant
                    k <= count,
                    count == keys.len(),
                    keys == positions.keys(),
                    list@.len() == k,
                    total == fields@.len(),
                    *value == Json::Object(*fields),
                    forall|name: Seq<char>| #[trigger]
                        positions.deep_view().contains_key(name) ==> ({
                            let at = positions.deep_view()[name];
                            &&& at < fields@.len()
                            &&& fields@[at as int].1.model() == model[name]
                        }),
                    forall|x: int|
                        0 <= x < k ==> (#[trigger] list@[x]).0@ == keys[x] && list@[x].1.model()
                            == model[keys[x]] && list@[x].1.in_order(),
                decreases count - k,
            {
                let name = positions.key_at(k);
                let at = *positions.value_at(k) as usize;
                assert(positions.deep_view().contains_key(keys[k as int]));
                assert(decreases_to!(*value => value->Object_0));
                assert(decreases_to!(*fields => fields@));
                assert(decreases_to!(fields@ => fields@[at as int]));
                assert(decreases_to!(fields@[at as int] => fields@[at as int].1));
                let item = canonical_json(&fields[at].1);
                list.push((name.duplicate(), item));
                k += 1;
            }
            proof {
                assert(names(list@) =~= keys);
                lemma_distinct_fields(list@, list@.len() as int);
                lemma_fields_in_order(list@, list@.len() as int);
                let rebuilt = fields_model(list@, list@.len() as int);
                assert(keys.take(keys.len() as int) =~= keys);
                assert(rebuilt.dom() =~= model.dom());
                assert forall|name: Seq<char>| rebuilt.contains_key(name) implies rebuilt[name]
                    == model[name] by {
                    assert(keys.contains(name));
                    let x = choose|x: int| 0 <= x < keys.len() && keys[x] == name;
                    assert(list@[x].0@ == name);
                }
                assert(rebuilt =~= model);
            }
            Json::Object(list)
        },
    }
}

/// A JSON value as it is written, up to white space and the spelling of texts.
pub enum WrittenJson {
    Null,
    Bool(bool),
    Number(Seq<char>),
    Text(Seq<char>),
    Array(Seq<WrittenJson>),
    Object(Seq<(Seq<char>, WrittenJson)>),
}

impl Json {
    /// The value as it is written.
    pub open spec fn written(self) -> WrittenJson
        decreases self, 0int,
    {
        match self {
            Json::Null => WrittenJson::Null,
            Json::Bool(value) => WrittenJson::Bool(value),
            Json::Number(digits) => WrittenJson::Number(digits@),
            Json::Text(text) => WrittenJson::Text(text@),
            Json::Array(items) => WrittenJson::Array(items_written(items@, items@.len() as int)),
            Json::Object(fields) => WrittenJson::Object(
                fields_written(fields@, fields@.len() as int),
            ),
        }
    }
}

/// The first `n` items as they are written.
pub open spec fn items_written(items: Seq<Json>, n: int) -> Seq<WrittenJson>
    decreases items, n,
{
    if n <= 0 || n > items.len() {
        Seq::empty()
    } else {
        items_written(items, n - 1).push(items[n - 1].written())
    }
}

/// The first `n` members as they are written.
pub open spec fn fields_written(
    fields: Seq<(String, Json)>,
    n: int,
) -> Seq<(Seq<char>, WrittenJson)>
    decreases fields, n,
{
    if n <= 0 || n > fields.len() {
        Seq::empty()
    } else {
        fields_written(fields, n - 1).push((fields[n - 1].0@, fields[n - 1].1.written()))
    }
}

proof fn lemma_items(items: Seq<Json>, n: int)
    requires
        0 <= n <= items.len(),
    ensures
        items_model(items, n).len() == n,
        items_written(items, n).len() == n,
        forall|i: int|
            #![trigger items[i]]
            0 <= i < n ==> items_model(items, n)[i] == items[i].model() && items_written(
                items,
                n,
            )[i] == items[i].written() && (items_in_order(items, n) ==> items[i].in_order()),
    decreases n,
{
    if n > 0 {
        lemma_items(items, n - 1);
    }
}

proof fn lemma_fields(fields: Seq<(String, Json)>, n: int)
    requires
        0 <= n <= fields.len(),
    ensures
        fields_written(fields, n).len() == n,
        forall|i: int|
            #![trigger fields[i]]
            0 <= i < n ==> fields_written(fields, n)[i] == (
                fields[i].0@,
                fields[i].1.written(),
            ) && (fields_in_order(fields, n) ==> fields[i].1.in_order()),
    decreases n,
{
    if n > 0 {
        lemma_fields(fields, n - 1);
    }
}

/// Values that say the same have one canonical form: in order, they are written alike.
pub proof fn law_canonical_form_is_unique(left: Json, right: Json)
    requires
        left.in_order(),
        right.in_order(),
        left.model() == right.model(),
    ensures
        left.written() == right.written(),
    decreases left,
{
    match (left, right) {
        (Json::Array(a), Json::Array(b)) => {
            lemma_items(a@, a@.len() as int);
            lemma_items(b@, b@.len() as int);
            let n = a@.len() as int;
            assert(items_model(a@, n) == items_model(b@, b@.len() as int));
            assert(b@.len() == n);
            assert forall|i: int| 0 <= i < n implies items_written(a@, n)[i] == items_written(
                b@,
                n,
            )[i] by {
                assert(items_model(a@, n)[i] == items_model(b@, n)[i]);
                assert(a@[i].model() == b@[i].model());
                assert(a@[i].in_order() && b@[i].in_order());
                assert(decreases_to!(left => left->Array_0));
                assert(decreases_to!(a => a@));
                assert(decreases_to!(a@ => a@[i]));
                law_canonical_form_is_unique(a@[i], b@[i]);
            }
            assert(items_written(a@, n) =~= items_written(b@, n));
        },
        (Json::Object(a), Json::Object(b)) => {
            let n = a@.len() as int;
            let m = b@.len() as int;
            lemma_fields(a@, n);
            lemma_fields(b@, m);
            lemma_increasing_distinct::<String>(names(a@));
            lemma_increasing_distinct::<String>(names(b@));
            lemma_distinct_fields(a@, n);
            lemma_distinct_fields(b@, m);
            assert(names(a@).take(n) =~= names(a@));
            assert(names(b@).take(m) =~= names(b@));
            assert(fields_model(a@, n) == fields_model(b@, m));
            lemma_increasing_unique::<String>(names(a@), names(b@));
            assert(n == m);
            assert forall|i: int| 0 <= i < n implies fields_written(a@, n)[i] == fields_written(
                b@,
                n,
            )[i] by {
                assert(names(a@)[i] == names(b@)[i]);
                assert(a@[i].0@ == b@[i].0@);
                assert(a@[i].1.model() == b@[i].1.model());
                assert(a@[i].1.in_order() && b@[i].1.in_order());
                assert(decreases_to!(left => left->Object_0));
                assert(decreases_to!(a => a@));
                assert(decreases_to!(a@ => a@[i]));
                assert(decreases_to!(a@[i] => a@[i].1));
                law_canonical_form_is_unique(a@[i].1, b@[i].1);
            }
            assert(fields_written(a@, n) =~= fields_written(b@, m));
        },
        _ => {},
    }
}

/// The text of a value as it is written: compact, with texts spelled as JSON strings.
pub open spec fn spelled(value: WrittenJson) -> Seq<char>
    decreases value, 0int,
{
    match value {
        WrittenJson::Null => "null"@,
        WrittenJson::Bool(true) => "true"@,
        WrittenJson::Bool(false) => "false"@,
        WrittenJson::Number(digits) => digits,
        WrittenJson::Text(text) => json_string(text),
        WrittenJson::Array(items) => seq!['['] + spelled_items(items, items.len() as int)
            + seq![']'],
        WrittenJson::Object(fields) => seq!['{'] + spelled_fields(fields, fields.len() as int)
            + seq!['}'],
    }
}

/// A comma, except before the first of several.
pub open spec fn separator(position: int) -> Seq<char> {
    if position > 0 {
        seq![',']
    } else {
        Seq::empty()
    }
}

/// The text of the first `n` items.
pub open spec fn spelled_items(items: Seq<WrittenJson>, n: int) -> Seq<char>
    decreases items, n,
{
    if n <= 0 || n > items.len() {
        Seq::empty()
    } else {
        spelled_items(items, n - 1) + separator(n - 1) + spelled(items[n - 1])
    }
}

/// The text of the first `n` members.
pub open spec fn spelled_fields(fields: Seq<(Seq<char>, WrittenJson)>, n: int) -> Seq<char>
    decreases fields, n,
{
    if n <= 0 || n > fields.len() {
        Seq::empty()
    } else {
        spelled_fields(fields, n - 1) + separator(n - 1) + json_string(fields[n - 1].0) + seq![':']
            + spelled(fields[n - 1].1)
    }
}

fn push_separator(out: &mut String, position: usize)
    ensures
        final(out)@ == old(out)@ + separator(position as int),
{
    if position > 0 {
        proof {
            reveal_strlit(",");
            assert(","@ =~= seq![',']);
        }
        out.append(",");
    } else {
        assert(out@ =~= old(out)@ + separator(0));
    }
}

fn push_json(out: &mut String, value: &Json)
    ensures
        final(out)@ == old(out)@ + spelled(value.written()),
    decreases value,
{
    match value {
        Json::Null => out.append("null"),
        Json::Bool(true) => out.append("true"),
        Json::Bool(false) => out.append("false"),
        Json::Number(digits) => out.append(digits.as_str()),
        Json::Text(text) => out.append(write_json_string(text.as_str()).as_str()),
        Json::Array(items) => {
            let ghost before = out@;
            let ghost written = items_written(items@, items@.len() as int);
            proof {
                reveal_strlit("[");
                reveal_strlit("]");
                assert("["@ =~= seq!['[']);
                assert("]"@ =~= seq![']']);
                lemma_items(items@, items@.len() as int);
            }
            out.append("[");
            let mut i: usize = 0;
            assert(out@ =~= before + seq!['['] + spelled_items(written, 0));
            while i < items.len()
                invariant
                    i <= items@.len(),
                    *value == Json::Array(*items),
                    written == items_written(items@, items@.len() as int),
                    written.len() == items@.len(),
                    forall|k: int|
                        #![trigger items@[k]]
                        0 <= k < items@.len() ==> written[k] == items@[k].written(),
                    out@ == before + seq!['['] + spelled_items(written, i as int),
                decreases items@.len() - i,
            {
                assert(decreases_to!(*value => value->Array_0));
                assert(decreases_to!(*items => items@));
                assert(decreases_to!(items@ => items@[i as int]));
                push_separator(out, i);
                push_json(out, &items[i]);
                assert(out@ =~= before + seq!['['] + spelled_items(written, i + 1));
                i += 1;
            }
            out.append("]");
            assert(out@ =~= before + spelled(value.written()));
        },
        Json::Object(fields) => {
            let ghost before = out@;
            let ghost written = fields_written(fields@, fields@.len() as int);
            proof {
                reveal_strlit("{");
                reveal_strlit("}");
                reveal_strlit(":");
                assert("{"@ =~= seq!['{']);
                assert("}"@ =~= seq!['}']);
                assert(":"@ =~= seq![':']);
                lemma_fields(fields@, fields@.len() as int);
            }
            out.append("{");
            let mut i: usize = 0;
            assert(out@ =~= before + seq!['{'] + spelled_fields(written, 0));
            while i < fields.len()
                invariant
                    i <= fields@.len(),
                    *value == Json::Object(*fields),
                    written == fields_written(fields@, fields@.len() as int),
                    written.len() == fields@.len(),
                    ":"@ == seq![':'],
                    forall|k: int|
                        #![trigger fields@[k]]
                        0 <= k < fields@.len() ==> written[k] == (
                            fields@[k].0@,
                            fields@[k].1.written(),
                        ),
                    out@ == before + seq!['{'] + spelled_fields(written, i as int),
                decreases fields@.len() - i,
            {
                assert(decreases_to!(*value => value->Object_0));
                assert(decreases_to!(*fields => fields@));
                assert(decreases_to!(fields@ => fields@[i as int]));
                assert(decreases_to!(fields@[i as int] => fields@[i as int].1));
                push_separator(out, i);
                out.append(write_json_string(fields[i].0.as_str()).as_str());
                out.append(":");
                push_json(out, &fields[i].1);
                assert(out@ =~= before + seq!['{'] + spelled_fields(written, i + 1));
                i += 1;
            }
            out.append("}");
            assert(out@ =~= before + spelled(value.written()));
        },
    }
}

/// Writes a value, its members in the order in which they stand.
pub fn write_json(value: &Json) -> (text: String)
    ensures
        text@ == spelled(value.written()),
{
    let mut text = String::new();
    push_json(&mut text, value);
    assert(text@ =~= spelled(value.written()));
    text
}

/// The payload of a tool: a text is kept verbatim, and a structured payload as JSON.
pub fn tool_value_text(value: &Json) -> (text: Option<String>)
    ensures
        text.deep_view() == Some(
            match *value {
                Json::Text(text) => text@,
                _ => spelled(value.written()),
            },
        ),
{
    match value {
        Json::Text(text) => Some(text.duplicate()),
        _ => Some(write_json(value)),
    }
}

/// Values that say the same are written alike once they are in canonical form.
pub proof fn law_canonical_forms_are_written_alike(left: Json, right: Json)
    requires
        left.in_order(),
        right.in_order(),
        left.model() == right.model(),
    ensures
        spelled(left.written()) == spelled(right.written()),
{
    law_canonical_form_is_unique(left, right);
}

proof fn lemma_first_member(fields: Seq<(String, Json)>, name: Seq<char>, from: int, i: int)
    requires
        0 <= from <= i <= fields.len(),
        forall|j: int| from <= j < i ==> (#[trigger] fields[j]).0@ != name,
    ensures
        member(fields, name, from) == member(fields, name, i),
    decreases i - from,
{
    if from < i {
        assert(fields[from].0@ != name);
        lemma_first_member(fields, name, from + 1, i);
    }
}

/// A member of an object is the first field of that name, and there is none where no field has
/// it. What is asked for as a text is one or nothing.
pub proof fn law_the_first_field_is_the_member(
    fields: Seq<(String, Json)>,
    name: Seq<char>,
    i: int,
    value: Json,
)
    ensures
        0 <= i < fields.len() && fields[i].0@ == name && (forall|j: int|
            0 <= j < i ==> (#[trigger] fields[j]).0@ != name) ==> member(fields, name, 0) == Some(
            fields[i].1,
        ),
        (forall|j: int| 0 <= j < fields.len() ==> (#[trigger] fields[j]).0@ != name) ==> member(
            fields,
            name,
            0,
        ) is None,
        value matches Json::Text(text) ==> text_of(Some(value)) == Some(text@),
        !(value is Text) ==> text_of(Some(value)) is None,
        text_of(None) is None,
{
    if 0 <= i < fields.len() && forall|j: int| 0 <= j < i ==> (#[trigger] fields[j]).0@ != name {
        lemma_first_member(fields, name, 0, i);
    }
    if forall|j: int| 0 <= j < fields.len() ==> (#[trigger] fields[j]).0@ != name {
        lemma_first_member(fields, name, 0, fields.len() as int);
    }
}

/// The text of an item: that of its field `text`, where the item is an object that has one.
pub open spec fn item_text(item: Json) -> Option<Seq<char>> {
    match item {
        Json::Object(fields) => text_of(member(fields@, "text"@, 0)),
        _ => None,
    }
}

/// The text of a result is its content where that is a text, and otherwise the texts of the
/// items of its content, in their order and one to a line. Items without a text are passed over,
/// and there is no text where none has one.
pub proof fn law_results_are_read_line_by_line(
    items: Seq<Json>,
    item: Json,
    parts: Seq<Seq<char>>,
    line: Seq<char>,
)
    ensures
        item_texts(items, items.len() as int) == items.filter(
            |i: Json| item_text(i) is Some,
        ).map_values(|i: Json| item_text(i).unwrap()),
        parts.len() > 0 ==> lines(parts.push(line)) == lines(parts) + seq!['\n'] + line,
        parts.len() == 1 ==> lines(parts) == parts[0],
        item matches Json::Text(text) ==> content_text(Some(item)) == Some(text@),
        item matches Json::Array(found) ==> (content_text(Some(item)) is None <==> forall|i: int|
            0 <= i < found@.len() ==> item_text(#[trigger] found@[i]) is None),
        item matches Json::Array(found) ==> (content_text(Some(item)) is Some ==> content_text(
            Some(item),
        ) == Some(lines(item_texts(found@, found@.len() as int)))),
        !(item is Text) && !(item is Array) ==> content_text(Some(item)) is None,
        content_text(None) is None,
{
    lemma_item_texts(items, items.len() as int);
    assert(items.take(items.len() as int) =~= items);
    assert(parts.push(line).drop_last() =~= parts);
    if parts.len() > 0 {
        assert(lines(parts.push(line)) =~= lines(parts) + seq!['\n'] + line);
    }
    if let Json::Array(found) = item {
        let n = found@.len() as int;
        lemma_item_texts(found@, n);
        assert(found@.take(n) =~= found@);
        let kept = found@.filter(|i: Json| item_text(i) is Some);
        if forall|i: int| 0 <= i < n ==> item_text(#[trigger] found@[i]) is None {
            lemma_no_texts(found@, n);
        }
        if item_texts(found@, n).len() == 0 {
            assert forall|i: int| 0 <= i < n implies item_text(#[trigger] found@[i]) is None by {
                if item_text(found@[i]) is Some {
                    broadcast use vstd::seq_lib::group_filter_ensures;

                    assert(kept.contains(found@[i]));
                }
            }
        }
    }
}

proof fn lemma_no_texts(items: Seq<Json>, n: int)
    requires
        0 <= n <= items.len(),
        forall|i: int| 0 <= i < items.len() ==> item_text(#[trigger] items[i]) is None,
    ensures
        item_texts(items, n).len() == 0,
    decreases n,
{
    if n > 0 {
        lemma_no_texts(items, n - 1);
        assert(item_text(items[n - 1]) is None);
    }
}

proof fn lemma_item_texts(items: Seq<Json>, n: int)
    requires
        0 <= n <= items.len(),
    ensures
        item_texts(items, n) == items.take(n).filter(|i: Json| item_text(i) is Some).map_values(
            |i: Json| item_text(i).unwrap(),
        ),
    decreases n,
{
    reveal(Seq::filter);
    let has = |i: Json| item_text(i) is Some;
    let text = |i: Json| item_text(i).unwrap();
    if n > 0 {
        lemma_item_texts(items, n - 1);
        assert(items.take(n).drop_last() =~= items.take(n - 1));
        assert(items.take(n).last() == items[n - 1]);
        let kept = items.take(n - 1).filter(has);
        assert(kept.push(items[n - 1]).map_values(text) =~= kept.map_values(text).push(
            text(items[n - 1]),
        ));
    } else {
        assert(items.take(0) =~= Seq::empty());
        assert(item_texts(items, n) =~= items.take(0).filter(has).map_values(text));
    }
}

/// How values are written: the words for nothing and for truth, numbers by their digits, texts
/// as quoted strings, and lists and objects in brackets and braces with a comma between two
/// entries and a colon behind each name.
pub proof fn law_values_are_written_compactly(
    items: Seq<WrittenJson>,
    fields: Seq<(Seq<char>, WrittenJson)>,
    value: WrittenJson,
    name: Seq<char>,
    text: Seq<char>,
)
    ensures
        spelled(WrittenJson::Null) == "null"@ && spelled(WrittenJson::Bool(true)) == "true"@
            && spelled(WrittenJson::Bool(false)) == "false"@,
        spelled(WrittenJson::Number(text)) == text && spelled(WrittenJson::Text(text))
            == json_string(text),
        spelled(WrittenJson::Array(Seq::empty())) == "[]"@,
        spelled(WrittenJson::Object(Seq::empty())) == "{}"@,
        spelled(WrittenJson::Array(seq![value])) == "["@ + spelled(value) + "]"@,
        spelled(WrittenJson::Object(seq![(name, value)])) == "{"@ + json_string(name) + ":"@
            + spelled(value) + "}"@,
        items.len() > 0 ==> spelled(WrittenJson::Array(items.push(value))) == spelled(
            WrittenJson::Array(items),
        ).drop_last() + ","@ + spelled(value) + "]"@,
        fields.len() > 0 ==> spelled(WrittenJson::Object(fields.push((name, value)))) == spelled(
            WrittenJson::Object(fields),
        ).drop_last() + ","@ + json_string(name) + ":"@ + spelled(value) + "}"@,
{
    reveal_strlit("[]");
    reveal_strlit("{}");
    reveal_strlit("[");
    reveal_strlit("]");
    reveal_strlit("{");
    reveal_strlit("}");
    reveal_strlit(",");
    reveal_strlit(":");
    let none = Seq::<WrittenJson>::empty();
    let no_fields = Seq::<(Seq<char>, WrittenJson)>::empty();
    assert(spelled(WrittenJson::Array(none)) =~= "[]"@);
    assert(spelled(WrittenJson::Object(no_fields)) =~= "{}"@);
    lemma_items_behind(none, value, 0);
    lemma_fields_behind(no_fields, (name, value), 0);
    assert(none.push(value) =~= seq![value]);
    assert(no_fields.push((name, value)) =~= seq![(name, value)]);
    assert(spelled(WrittenJson::Array(seq![value])) =~= "["@ + spelled(value) + "]"@);
    assert(spelled(WrittenJson::Object(seq![(name, value)])) =~= "{"@ + json_string(name) + ":"@
        + spelled(value) + "}"@);
    lemma_items_behind(items, value, items.len() as int);
    lemma_fields_behind(fields, (name, value), fields.len() as int);
    if items.len() > 0 {
        assert(spelled(WrittenJson::Array(items.push(value))) =~= spelled(
            WrittenJson::Array(items),
        ).drop_last() + ","@ + spelled(value) + "]"@);
    }
    if fields.len() > 0 {
        assert(spelled(WrittenJson::Object(fields.push((name, value)))) =~= spelled(
            WrittenJson::Object(fields),
        ).drop_last() + ","@ + json_string(name) + ":"@ + spelled(value) + "}"@);
    }
}

proof fn lemma_items_behind(items: Seq<WrittenJson>, value: WrittenJson, n: int)
    requires
        0 <= n <= items.len(),
    ensures
        spelled_items(items.push(value), n) == spelled_items(items, n),
        n == items.len() ==> spelled_items(items.push(value), n + 1) == spelled_items(items, n)
            + separator(n) + spelled(value),
    decreases n,
{
    if n > 0 {
        lemma_items_behind(items, value, n - 1);
        assert(items.push(value)[n - 1] == items[n - 1]);
    }
}

proof fn lemma_fields_behind(
    fields: Seq<(Seq<char>, WrittenJson)>,
    field: (Seq<char>, WrittenJson),
    n: int,
)
    requires
        0 <= n <= fields.len(),
    ensures
        spelled_fields(fields.push(field), n) == spelled_fields(fields, n),
        n == fields.len() ==> spelled_fields(fields.push(field), n + 1) == spelled_fields(fields, n)
            + separator(n) + json_string(field.0) + seq![':'] + spelled(field.1),
    decreases n,
{
    if n > 0 {
        lemma_fields_behind(fields, field, n - 1);
        assert(fields.push(field)[n - 1] == fields[n - 1]);
    }
}

proof fn lemma_items_stay(items: Seq<Json>, n: int, i: int)
    requires
        0 <= i < n <= items.len(),
    ensures
        items_model(items, n).len() == n && items_model(items, n)[i] == items[i].model(),
        items_written(items, n).len() == n && items_written(items, n)[i] == items[i].written(),
        items_in_order(items, n) ==> items[i].in_order(),
    decreases n,
{
    if n > 1 {
        lemma_items_stay(items, n - 1, if i < n - 1 {
            i
        } else {
            0
        });
    } else {
        assert(items_model(items, 0).len() == 0 && items_written(items, 0).len() == 0);
    }
}

proof fn lemma_last_field(fields: Seq<(String, Json)>, n: int, i: int)
    requires
        0 <= i < n <= fields.len(),
    ensures
        (forall|j: int| i < j < n ==> (#[trigger] fields[j]).0@ != fields[i].0@) ==> fields_model(
            fields,
            n,
        ).contains_key(fields[i].0@) && fields_model(fields, n)[fields[i].0@]
            == fields[i].1.model(),
        fields_written(fields, n).len() == n && fields_written(fields, n)[i] == (
            fields[i].0@,
            fields[i].1.written(),
        ),
        fields_in_order(fields, n) ==> fields[i].1.in_order(),
    decreases n,
{
    if n > 1 {
        lemma_last_field(fields, n - 1, if i < n - 1 {
            i
        } else {
            0
        });
        if i < n - 1 && forall|j: int| i < j < n ==> (#[trigger] fields[j]).0@ != fields[i].0@ {
            assert(fields[n - 1].0@ != fields[i].0@);
        }
    } else {
        assert(fields_written(fields, 0).len() == 0);
    }
}

proof fn lemma_no_field(fields: Seq<(String, Json)>, n: int, name: Seq<char>)
    requires
        0 <= n <= fields.len(),
        forall|j: int| 0 <= j < n ==> (#[trigger] fields[j]).0@ != name,
    ensures
        !fields_model(fields, n).contains_key(name),
    decreases n,
{
    if n > 0 {
        lemma_no_field(fields, n - 1, name);
        assert(fields[n - 1].0@ != name);
    }
}

/// What a value means: an array its items one by one, and an object the last value of each name.
/// It is in order exactly if the names of every object in it increase.
pub proof fn law_values_mean_their_parts(value: Json, i: int, name: Seq<char>)
    ensures
        value matches Json::Array(items) ==> {
            &&& value.model() matches JsonModel::Array(found) && found.len() == items@.len() && (0
                <= i < items@.len() ==> found[i] == items@[i].model())
            &&& value.written() matches WrittenJson::Array(found) && found.len() == items@.len() && (
            0 <= i < items@.len() ==> found[i] == items@[i].written())
            &&& value.in_order() && 0 <= i < items@.len() ==> items@[i].in_order()
        },
        value matches Json::Object(fields) ==> {
            &&& value.model() matches JsonModel::Object(found) && (0 <= i < fields@.len() && (forall|
                j: int,
            |
                i < j < fields@.len() ==> (#[trigger] fields@[j]).0@ != fields@[i].0@)
                ==> found.contains_key(fields@[i].0@) && found[fields@[i].0@]
                == fields@[i].1.model()) && ((forall|j: int|
                0 <= j < fields@.len() ==> (#[trigger] fields@[j]).0@ != name)
                ==> !found.contains_key(name))
            &&& value.written() matches WrittenJson::Object(found) && found.len() == fields@.len()
                && (0 <= i < fields@.len() ==> found[i] == (
                fields@[i].0@,
                fields@[i].1.written(),
            ))
            &&& value.in_order() && 0 <= i < fields@.len() ==> fields@[i].1.in_order()
            &&& value.in_order() && 0 < i < fields@.len() ==> crate::order::bytes_before(
                vstd::utf8::encode_utf8(fields@[i - 1].0@),
                vstd::utf8::encode_utf8(fields@[i].0@),
            )
        },
{
    match value {
        Json::Array(items) => {
            let n = items@.len() as int;
            if 0 <= i < n {
                lemma_items_stay(items@, n, i);
            } else if n > 0 {
                lemma_items_stay(items@, n, 0);
            }
        },
        Json::Object(fields) => {
            let n = fields@.len() as int;
            if 0 <= i < n {
                lemma_last_field(fields@, n, i);
            } else if n > 0 {
                lemma_last_field(fields@, n, 0);
            }
            if forall|j: int| 0 <= j < n ==> (#[trigger] fields@[j]).0@ != name {
                lemma_no_field(fields@, n, name);
            }
            if 0 < i < n {
                assert(names(fields@)[i - 1] == fields@[i - 1].0@ && names(fields@)[i]
                    == fields@[i].0@);
                crate::keys::law_texts_are_sorted_by_their_bytes(
                    fields@[i - 1].0@,
                    fields@[i].0@,
                    name,
                    name,
                );
            }
        },
        _ => {},
    }
}

} // verus!
