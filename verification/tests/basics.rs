//! Texts, paths, orders, collections and field-wise payloads.

use memex_refresh::codec::{
    database_payload, extensions, file_payload, is_known, legacy_extras, preserve, Entity, Fields,
    FilePayload,
};
use memex_refresh::keys::{TextMap, TextSet};
use memex_refresh::model::Modeled;
use memex_refresh::order::{compare_bytes, has_repeat, sorted_unique_order, stable_order, Relation};
use memex_refresh::path::{copy_range, equal_bytes, join, FilePath};
use memex_refresh::sorted::{sorted_list, SortedMap, SortedSet};
use memex_refresh::text::{
    hex, parse_u64, render_u64, split_once, strip_prefix, strip_suffix, valid_hex_digest,
    valid_identity,
};

fn path(text: &str) -> FilePath {
    FilePath::new(text.as_bytes().to_vec())
}

fn texts(list: &[&str]) -> Vec<String> {
    list.iter().map(|text| text.to_string()).collect()
}

fn fields(list: &[(&str, &str)]) -> Fields {
    let mut map: Fields = SortedMap::new();
    for (name, value) in list {
        map.insert(name.to_string(), value.to_string());
    }
    map
}

fn listed(fields: &Fields) -> Vec<(String, String)> {
    (0..fields.len())
        .map(|i| (fields.key_at(i).clone(), fields.value_at(i).clone()))
        .collect()
}

fn pairs(list: &[(&str, &str)]) -> Vec<(String, String)> {
    list.iter()
        .map(|(name, value)| (name.to_string(), value.to_string()))
        .collect()
}

#[test]
fn numbers_are_read_as_they_are_written() {
    for n in [0, 7, 10, 12_345, u64::MAX] {
        assert_eq!(render_u64(n), n.to_string());
        assert_eq!(parse_u64(&n.to_string()), Some(n));
    }
    assert_eq!(parse_u64("+7"), Some(7));
    assert_eq!(parse_u64("007"), Some(7));
    assert_eq!(parse_u64(""), None);
    assert_eq!(parse_u64("+"), None);
    assert_eq!(parse_u64("-0"), None);
    assert_eq!(parse_u64("1 "), None);
    assert_eq!(parse_u64("18446744073709551616"), None);
}

#[test]
fn digests_are_written_in_lower_case() {
    assert_eq!(hex(&[0, 1, 0xab, 0xff]), "0001abff");
    assert_eq!(hex(&[]), "");
    assert!(valid_identity(&hex(&[7; 32])));
    assert!(!valid_identity(&"A".repeat(64)));
    assert!(valid_hex_digest(&"A".repeat(64)));
    assert!(!valid_hex_digest(&"g".repeat(64)));
    assert!(!valid_hex_digest(&"a".repeat(65)));
}

#[test]
fn texts_are_cut_at_their_ends_and_marks() {
    assert_eq!(strip_prefix("über:x", "über:"), Some("x"));
    assert_eq!(strip_prefix("x", "xy"), None);
    assert_eq!(strip_suffix("name.json", ".json"), Some("name"));
    assert_eq!(strip_suffix("json", ".json"), None);
    assert_eq!(split_once("a:b:c", ':'), Some(("a", "b:c")));
    assert_eq!(split_once("abc", ':'), None);
    assert_eq!(split_once(":", ':'), Some(("", "")));
}

#[test]
fn paths_are_compared_by_their_components() {
    assert!(path("/a//b/").same(&path("/a/b")));
    assert!(path("/a/./b").same(&path("/a/b")));
    assert!(!path("./a").same(&path("a")));
    assert!(!path("/a/../b").same(&path("/b")));
    assert_eq!(path("/a/b/").file_name(), Some(b"b".to_vec()));
    assert_eq!(path("/a/..").file_name(), None);
    assert_eq!(path("/").file_name(), None);
    assert!(path("a/b").only_names());
    assert!(!path("a/../b").only_names());
    assert!(!path("/a").only_names());
    assert!(path("/a").is_absolute());
    assert!(!path("a").is_absolute());
    for text in ["/a/b", "a//b/.", "..", "/", "", "a/..", "./a", "/../x/"] {
        let native = std::path::Path::new(text);
        let name = native
            .file_name()
            .map(|name| name.to_string_lossy().into_owned().into_bytes());
        assert_eq!(path(text).file_name(), name, "{text}");
        assert_eq!(path(text).is_absolute(), native.is_absolute(), "{text}");
    }
}

#[test]
fn paths_are_joined_with_one_separator() {
    assert_eq!(join(b"/a", b"b"), b"/a/b");
    assert_eq!(join(b"/a/", b"b"), b"/a/b");
    assert_eq!(join(b"", b"b"), b"b");
    assert_eq!(join(b"a", b"\xff"), b"a/\xff");
    assert_eq!(copy_range(b"abcdef", 1, 3), b"bc");
    assert!(equal_bytes(b"ab", b"ab"));
    assert!(!equal_bytes(b"ab", b"abc"));
}

#[test]
fn orders_are_stable_and_lexicographic() {
    assert!(matches!(compare_bytes(b"a", b"ab"), Relation::Before));
    assert!(matches!(compare_bytes(b"b", b"ab"), Relation::After));
    assert!(matches!(compare_bytes(b"", b""), Relation::Same));
    let list = texts(&["b", "a", "b", "", "a"]);
    assert_eq!(stable_order(&list), [3, 1, 4, 0, 2]);
    assert_eq!(sorted_unique_order(&list), [3, 1, 0]);
    assert!(has_repeat(&list));
    assert!(!has_repeat(&texts(&["x", "y"])));
    assert_eq!(sorted_list(&list), ["", "a", "a", "b", "b"]);
}

#[test]
fn sets_hold_each_member_once_in_order() {
    let mut set: TextSet = SortedSet::new();
    assert!(set.insert("b".to_string()));
    assert!(set.insert("a".to_string()));
    assert!(!set.insert("b".to_string()));
    assert_eq!(set.list(), ["a", "b"]);
    assert!(set.contains(&"a".to_string()));
    assert!(set.remove(&"a".to_string()));
    assert!(!set.remove(&"a".to_string()));
    set.add_all(&texts(&["c", "b"]));
    assert_eq!(set.list(), ["b", "c"]);
    assert!(set.same(&SortedSet::from_list(&texts(&["c", "b", "c"]))));
}

#[test]
fn maps_assign_each_key_once_in_order() {
    let mut map: TextMap<u64> = SortedMap::new();
    assert_eq!(map.insert("b".to_string(), 1), None);
    assert_eq!(map.insert("a".to_string(), 2), None);
    assert_eq!(map.insert("b".to_string(), 3), Some(1));
    assert_eq!(map.key_list(), ["a", "b"]);
    assert_eq!(map.get(&"b".to_string()), Some(&3));
    assert_eq!(map.get(&"c".to_string()), None);
    let mut more: TextMap<u64> = SortedMap::new();
    more.insert("c".to_string(), 4);
    more.insert("a".to_string(), 5);
    map.extend(&more);
    assert_eq!(map.get(&"a".to_string()), Some(&5));
    map.remove_all(&texts(&["b", "x"]));
    assert_eq!(map.key_list(), ["a", "c"]);
    assert_eq!(map.remove(&"c".to_string()), Some(4));
    assert_eq!(map.len(), 1);
    assert!(!map.same(&more));
}

#[test]
fn known_fields_are_told_from_extensions() {
    for (entity, name) in [
        (Entity::State, "files"),
        (Entity::File, "mtime"),
        (Entity::Identity, "sqlite_wal"),
        (Entity::ToolCall, "argument_bytes"),
        (Entity::Database, "owned_session_ids"),
    ] {
        assert!(is_known(entity, name));
        assert!(!is_known(entity, "extension"));
    }
    let all = fields(&[("mtime", "1"), ("future", "true"), ("size", "2")]);
    assert_eq!(listed(&extensions(Entity::File, &all)), pairs(&[("future", "true")]));
    let state = fields(&[("next_doc_id", "1"), ("files", "{}"), ("x", "[]")]);
    assert_eq!(listed(&legacy_extras(&state)), pairs(&[("x", "[]")]));
}

#[test]
fn updates_keep_extensions_and_nothing_else() {
    let old = fields(&[("mtime", "1"), ("offset", "2"), ("future", "true")]);
    let new = fields(&[("mtime", "5")]);
    let merged = preserve(Entity::File, &new, Some(&old));
    assert_eq!(listed(&merged), pairs(&[("future", "true"), ("mtime", "5")]));
    let again = preserve(Entity::File, &new, Some(&merged));
    assert!(again.same(&merged));
    assert!(preserve(Entity::File, &new, None).same(&new));
}

#[test]
fn nested_extensions_outlast_updates() {
    let mut calls: TextMap<Fields> = SortedMap::new();
    calls.insert("kept".to_string(), fields(&[("timestamp", "1"), ("x", "1")]));
    calls.insert("dropped".to_string(), fields(&[("timestamp", "2"), ("x", "2")]));
    let old = FilePayload {
        fields: fields(&[("mtime", "1"), ("top", "0")]),
        identity: Some(fields(&[("inode", "9"), ("deep", "0")])),
        pending_tool_calls: Some(calls),
    };
    let mut calls: TextMap<Fields> = SortedMap::new();
    calls.insert("kept".to_string(), fields(&[("timestamp", "3")]));
    calls.insert("new".to_string(), fields(&[("timestamp", "4")]));
    let new = FilePayload {
        fields: fields(&[("mtime", "5")]),
        identity: Some(fields(&[("prefix_bytes", "0")])),
        pending_tool_calls: Some(calls),
    };
    let merged = file_payload(&new, Some(&old));
    assert_eq!(listed(&merged.fields), pairs(&[("mtime", "5"), ("top", "0")]));
    assert_eq!(
        listed(merged.identity.as_ref().unwrap()),
        pairs(&[("deep", "0"), ("prefix_bytes", "0")])
    );
    let calls = merged.pending_tool_calls.as_ref().unwrap();
    assert_eq!(calls.key_list(), ["kept", "new"]);
    assert_eq!(
        listed(calls.get(&"kept".to_string()).unwrap()),
        pairs(&[("timestamp", "3"), ("x", "1")])
    );
    let mut before: TextMap<Fields> = SortedMap::new();
    before.insert("a".to_string(), fields(&[("event_id", "1"), ("note", "2")]));
    before.insert("b".to_string(), fields(&[("note", "3")]));
    let mut now: TextMap<Fields> = SortedMap::new();
    now.insert("a".to_string(), fields(&[("event_rowid", "4")]));
    let merged = database_payload(&now, &before);
    assert_eq!(merged.key_list(), ["a"]);
    assert_eq!(
        listed(merged.get(&"a".to_string()).unwrap()),
        pairs(&[("event_rowid", "4"), ("note", "2")])
    );
}
