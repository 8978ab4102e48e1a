//! Helpers of the transcript sources.

use memex_refresh::inventory::EntryType;
use memex_refresh::json::{
    borrowed_string, canonical_json, tool_result_text, tool_value_text, write_json, Json,
};
use memex_refresh::path::{is_jsonl, FilePath};
use memex_refresh::sources::{
    clamp_to_epoch, home_or_root, jsonl_files, parse_iso_millis, pending_tool_call,
    project_from_path, timestamp_millis, RecordLinks, Scalar,
};
use memex_refresh::walk::DiscoveredEntry;

fn path(text: &str) -> FilePath {
    FilePath::new(text.as_bytes().to_vec())
}

fn entry(text: &str, file_type: EntryType) -> DiscoveredEntry {
    DiscoveredEntry {
        path: path(text),
        depth: 1,
        file_type,
    }
}

fn text(value: &str) -> Json {
    Json::Text(value.to_string())
}

fn object(fields: Vec<(&str, Json)>) -> Json {
    Json::Object(
        fields
            .into_iter()
            .map(|(name, value)| (name.to_string(), value))
            .collect(),
    )
}

fn rendered(value: &Json) -> String {
    match value {
        Json::Null => "null".to_string(),
        Json::Bool(value) => value.to_string(),
        Json::Number(digits) => digits.clone(),
        Json::Text(text) => format!("{text:?}"),
        Json::Array(items) => {
            let items: Vec<String> = items.iter().map(rendered).collect();
            format!("[{}]", items.join(","))
        }
        Json::Object(fields) => {
            let fields: Vec<String> = fields
                .iter()
                .map(|(name, value)| format!("{name:?}:{}", rendered(value)))
                .collect();
            format!("{{{}}}", fields.join(","))
        }
    }
}

#[test]
fn projects_are_named_by_their_last_component() {
    assert_eq!(project_from_path("/home/user/project"), "project");
    assert_eq!(project_from_path("/home/user/project/"), "project");
    assert_eq!(project_from_path("project/."), "project");
    assert_eq!(project_from_path("/home/.."), "/home/..");
    assert_eq!(project_from_path("/"), "/");
    assert_eq!(project_from_path(""), "");
    assert_eq!(project_from_path("é/ü"), "ü");
}

#[test]
fn times_are_read_from_iso_texts() {
    assert_eq!(parse_iso_millis("1970-01-01T00:00:01.500Z"), Some(1_500));
    assert_eq!(
        parse_iso_millis("2026-09-01T00:00:00+02:00"),
        Some(1_788_213_600_000)
    );
    assert_eq!(parse_iso_millis("1969-12-31T23:59:59Z"), Some(0));
    assert_eq!(parse_iso_millis("yesterday"), None);
    assert_eq!(clamp_to_epoch(-1), 0);
    assert_eq!(clamp_to_epoch(i64::MAX), i64::MAX as u64);
}

#[test]
fn timestamps_are_read_from_json_values() {
    assert_eq!(timestamp_millis(&Scalar::Unsigned(u64::MAX)), u64::MAX);
    assert_eq!(timestamp_millis(&Scalar::Signed(-5)), 0);
    assert_eq!(timestamp_millis(&Scalar::Signed(5)), 5);
    assert_eq!(
        timestamp_millis(&Scalar::Text("1970-01-01T00:00:02Z".to_string())),
        2_000
    );
    assert_eq!(timestamp_millis(&Scalar::Text("soon".to_string())), 0);
    assert_eq!(timestamp_millis(&Scalar::Other), 0);
}

#[test]
fn homes_fall_back_to_the_root() {
    assert_eq!(home_or_root(Some(path("/home/user"))).bytes(), b"/home/user");
    assert_eq!(home_or_root(None).bytes(), b"/");
}

#[test]
fn transcripts_are_listed_in_path_order_each_once() {
    let files = jsonl_files(&vec![
        entry("/b/z.jsonl", EntryType::File),
        entry("/a/x.jsonl", EntryType::File),
        entry("/a//x.jsonl", EntryType::File),
        entry("/a/skip.json", EntryType::File),
        entry("/a/dir.jsonl", EntryType::Directory),
        entry("/a/link.jsonl", EntryType::Symlink),
        entry("/a-b/y.jsonl", EntryType::File),
        entry("/a/.jsonl", EntryType::File),
    ]);
    let listed: Vec<String> = files
        .iter()
        .map(|file| String::from_utf8(file.bytes().clone()).unwrap())
        .collect();
    assert_eq!(listed, ["/a/x.jsonl", "/a-b/y.jsonl", "/b/z.jsonl"]);
    assert!(is_jsonl(&path("/a/..jsonl")));
    assert!(!is_jsonl(&path("/a/jsonl")));
    assert!(!is_jsonl(&path("/a/x.jsonl.gz")));
}

#[test]
fn path_order_is_that_of_components() {
    let mut expected = vec!["/b", "/a/b", "/a-b", "/a/", "/a b/c", "a", "/"];
    let files = jsonl_files(
        &expected
            .iter()
            .map(|text| entry(&format!("{text}/f.jsonl"), EntryType::File))
            .collect(),
    );
    expected.sort_by_key(|text| std::path::PathBuf::from(format!("{text}/f.jsonl")));
    let listed: Vec<String> = files
        .iter()
        .map(|file| String::from_utf8(file.bytes().clone()).unwrap())
        .collect();
    let wanted: Vec<String> = expected
        .iter()
        .map(|text| format!("{text}/f.jsonl"))
        .collect();
    assert_eq!(listed, wanted);
}

#[test]
fn tool_calls_keep_a_digest_of_their_arguments() {
    let links = RecordLinks {
        parent_event_id: Some("parent".to_string()),
        source_tool_use_id: None,
        source_tool_assistant_uuid: Some("assistant".to_string()),
    };
    let call = pending_tool_call(
        Some("tool".to_string()),
        Some("event".to_string()),
        7,
        8,
        Some("ü{}"),
        &links,
        "session",
    );
    assert_eq!(call.tool_name, Some("tool".to_string()));
    assert_eq!(call.tool_use_event_id, Some("event".to_string()));
    assert_eq!(call.tool_use_doc_id, Some(7));
    assert_eq!(call.timestamp, 8);
    let digest = <sha2::Sha256 as sha2::Digest>::digest("ü{}".as_bytes());
    assert_eq!(call.argument_sha256, Some(format!("{digest:x}")));
    assert_eq!(call.argument_bytes, Some(4));
    assert_eq!(call.parent_event_id, Some("parent".to_string()));
    assert_eq!(call.session_id, Some("session".to_string()));
    assert_eq!(call.source_tool_use_id, None);
    assert_eq!(
        call.source_tool_assistant_uuid,
        Some("assistant".to_string())
    );
    let bare = pending_tool_call(None, None, 0, 0, None, &links, "");
    assert_eq!(bare.argument_sha256, None);
    assert_eq!(bare.argument_bytes, None);
}

#[test]
fn members_are_read_as_texts() {
    let fields = vec![
        ("a".to_string(), text("x")),
        ("b".to_string(), Json::Bool(true)),
    ];
    assert_eq!(borrowed_string(&fields, "a"), Some("x".to_string()));
    assert_eq!(borrowed_string(&fields, "b"), None);
    assert_eq!(borrowed_string(&fields, "c"), None);
}

#[test]
fn payloads_are_kept_verbatim_or_as_json() {
    assert_eq!(
        tool_value_text(&text("plain \"text\"")),
        Some("plain \"text\"".to_string())
    );
    let nested = object(vec![
        ("b", Json::Array(vec![Json::Number("1".to_string()), Json::Null])),
        ("a\n", text("say \"hi\" \u{e9}\u{1}")),
        ("c", Json::Array(vec![])),
        ("d", object(vec![])),
        ("e", Json::Array(vec![Json::Bool(true), Json::Bool(false)])),
    ]);
    let written =
        "{\"b\":[1,null],\"a\\n\":\"say \\\"hi\\\" \u{e9}\\u0001\",\"c\":[],\"d\":{},\"e\":[true,false]}";
    assert_eq!(tool_value_text(&nested), Some(written.to_string()));
    assert_eq!(write_json(&nested), written);
    assert_eq!(
        tool_value_text(&Json::Number("17".to_string())),
        Some("17".to_string())
    );
    assert_eq!(write_json(&text("t")), "\"t\"");
    let value: serde_json::Value = serde_json::from_str(written).unwrap();
    let sorted = object(vec![
        ("a\n", text("say \"hi\" \u{e9}\u{1}")),
        ("b", Json::Array(vec![Json::Number("1".to_string()), Json::Null])),
        ("c", Json::Array(vec![])),
        ("d", object(vec![])),
        ("e", Json::Array(vec![Json::Bool(true), Json::Bool(false)])),
    ]);
    assert_eq!(write_json(&canonical_json(&nested)), write_json(&sorted));
    let again: serde_json::Value = serde_json::from_str(&write_json(&sorted)).unwrap();
    assert_eq!(again, value);
}

#[test]
fn results_are_read_from_their_content() {
    assert_eq!(
        tool_result_text(&object(vec![("content", text("whole"))])),
        Some("whole".to_string())
    );
    let parts = Json::Array(vec![
        object(vec![("type", text("text")), ("text", text("one"))]),
        object(vec![("image", text("skipped"))]),
        text("skipped"),
        object(vec![("text", Json::Null)]),
        object(vec![("text", text("two"))]),
        object(vec![("text", text(""))]),
    ]);
    assert_eq!(
        tool_result_text(&object(vec![("content", parts)])),
        Some("one\ntwo\n".to_string())
    );
    assert_eq!(
        tool_result_text(&object(vec![("content", Json::Array(vec![]))])),
        None
    );
    assert_eq!(
        tool_result_text(&object(vec![("content", Json::Number("1".to_string()))])),
        None
    );
    assert_eq!(tool_result_text(&object(vec![("other", text("x"))])), None);
    assert_eq!(tool_result_text(&text("x")), None);
}

#[test]
fn values_that_say_the_same_have_one_canonical_form() {
    let left = object(vec![
        ("b", Json::Array(vec![object(vec![("y", Json::Null), ("x", text("1"))])])),
        ("a", Json::Number("1.50".to_string())),
    ]);
    let right = object(vec![
        ("a", text("overridden")),
        ("a", Json::Number("1.50".to_string())),
        ("b", Json::Array(vec![object(vec![("x", text("1")), ("y", Json::Null)])])),
    ]);
    let expected = r#"{"a":1.50,"b":[{"x":"1","y":null}]}"#;
    assert_eq!(rendered(&canonical_json(&left)), expected);
    assert_eq!(rendered(&canonical_json(&right)), expected);
    assert_eq!(rendered(&canonical_json(&Json::Bool(false))), "false");
}
