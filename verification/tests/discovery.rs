//! What discovery makes of the files it finds.

use memex_refresh::exclude::{has_few_braces, ExcludeError, PathExcluder};
use memex_refresh::files::{
    background_probe, changed_ns, file_identity, modified_ns, needs_prefix, observed_identity,
    prefix_bytes, prepare_file_task, resolve_claude_background, unchanged_file_metadata,
    ChangeTime, FileChange, FileMetadata, FileTask, SinceEpoch, SourceKind,
};
use memex_refresh::keys::{TextMap, TextSet};
use memex_refresh::model::Modeled;
use memex_refresh::outside::MAX_BRACE_DEPTH;
use memex_refresh::path::FilePath;
use memex_refresh::projection::{
    directory_projection, projection_input, DiscoveryRoots, IngestOptions,
};
use memex_refresh::sorted::{SortedMap, SortedSet};
use memex_refresh::state::{FileIdentity, FileState, PendingToolCall};
use memex_refresh::transcripts::{
    discovery_steps, names_session, needs_session_ids, sizes_fit, summarize, DiscoveryStep,
    Observed, SelectedFile,
};

fn path(text: &str) -> FilePath {
    FilePath::new(text.as_bytes().to_vec())
}

fn metadata(len: u64) -> FileMetadata {
    FileMetadata {
        len,
        is_file: true,
        device: Some(3),
        inode: Some(4),
        modified: Some(SinceEpoch {
            seconds: 10,
            nanos: 11,
        }),
        changed: Some(ChangeTime {
            seconds: 12,
            nanos: 13,
        }),
    }
}

fn state(len: u64, offset: u64) -> FileState {
    let mut calls: TextMap<PendingToolCall> = SortedMap::new();
    calls.insert("call".to_string(), PendingToolCall::default());
    FileState {
        size: len,
        mtime: 10,
        offset,
        turn_id: 5,
        legacy_turn_id: Some(6),
        claude_background: Some(false),
        parser_version: 2,
        pending_tool_calls: calls,
        identity: FileIdentity {
            device: Some(3),
            inode: Some(4),
            prefix_sha256: Some("known".to_string()),
            prefix_bytes: 8,
            modified_ns: Some(10_000_000_011),
            changed_ns: Some(12_000_000_013),
            ..FileIdentity::default()
        },
        codex_metadata_offsets: Some(vec![1, 2]),
    }
}

#[test]
fn times_are_kept_in_nanoseconds_within_bounds() {
    assert_eq!(modified_ns(&metadata(1)), Some(10_000_000_011));
    assert_eq!(changed_ns(&metadata(1)), Some(12_000_000_013));
    let mut far = metadata(1);
    far.modified = Some(SinceEpoch {
        seconds: u64::MAX,
        nanos: 999_999_999,
    });
    far.changed = Some(ChangeTime {
        seconds: i64::MIN,
        nanos: 5,
    });
    assert_eq!(modified_ns(&far), Some(i64::MAX));
    assert_eq!(changed_ns(&far), Some(i64::MIN + 5));
    far.changed = Some(ChangeTime {
        seconds: i64::MAX,
        nanos: 5,
    });
    assert_eq!(changed_ns(&far), Some(i64::MAX));
    far.modified = None;
    far.changed = Some(ChangeTime {
        seconds: 12,
        nanos: 0,
    });
    assert_eq!(modified_ns(&far), None);
    assert_eq!(changed_ns(&far), None);
}

#[test]
fn every_change_of_metadata_is_noticed() {
    let known = state(100, 50);
    assert!(unchanged_file_metadata(&known, &metadata(100), 2));
    assert!(!unchanged_file_metadata(&known, &metadata(101), 2));
    assert!(!unchanged_file_metadata(&known, &metadata(100), 3));
    let mut changed = metadata(100);
    changed.device = Some(9);
    assert!(!unchanged_file_metadata(&known, &changed, 2));
    let mut changed = metadata(100);
    changed.inode = None;
    assert!(!unchanged_file_metadata(&known, &changed, 2));
    let mut changed = metadata(100);
    changed.modified = None;
    assert!(!unchanged_file_metadata(&known, &changed, 2));
    let mut changed = metadata(100);
    changed.changed = Some(ChangeTime {
        seconds: 12,
        nanos: 14,
    });
    assert!(!unchanged_file_metadata(&known, &changed, 2));
}

#[test]
fn identities_rest_on_leading_bytes() {
    assert_eq!(prefix_bytes(10, None), 10);
    assert_eq!(prefix_bytes(10_000, None), 4_096);
    assert_eq!(prefix_bytes(10_000, Some(&state(100, 0))), 8);
    let mut unknown = state(100, 0);
    unknown.identity.prefix_bytes = 0;
    assert_eq!(prefix_bytes(10_000, Some(&unknown)), 100);
    assert_eq!(prefix_bytes(60, Some(&unknown)), 60);
    let digest = <sha2::Sha256 as sha2::Digest>::digest(b"hello");
    let identity = file_identity(&metadata(5), 5, Some(&b"hello".to_vec()));
    assert_eq!(identity.prefix_sha256, Some(format!("{digest:x}")));
    assert_eq!(identity.prefix_bytes, 5);
    assert_eq!(identity.device, Some(3));
    assert_eq!(identity.sqlite_wal, None);
    let mut directory = metadata(5);
    directory.is_file = false;
    assert_eq!(
        file_identity(&directory, 5, Some(&b"hello".to_vec())).prefix_sha256,
        None
    );
    assert_eq!(file_identity(&metadata(5), 5, None).prefix_sha256, None);
}

#[test]
fn unchanged_files_keep_their_identity_without_being_read() {
    let known = state(100, 50);
    assert!(!needs_prefix(Some(&known), &metadata(100), 2));
    assert!(needs_prefix(Some(&known), &metadata(101), 2));
    assert!(needs_prefix(None, &metadata(100), 2));
    let kept = observed_identity(Some(&known), &metadata(100), 2, None, None);
    assert!(kept.same(&known.identity));
    let with_log = observed_identity(
        Some(&known),
        &metadata(100),
        2,
        None,
        Some("wal".to_string()),
    );
    assert_eq!(with_log.sqlite_wal, Some("wal".to_string()));
    assert_eq!(with_log.prefix_sha256, Some("known".to_string()));
    let read = observed_identity(
        Some(&known),
        &metadata(101),
        2,
        Some(&b"12345678".to_vec()),
        None,
    );
    let digest = <sha2::Sha256 as sha2::Digest>::digest(b"12345678");
    assert_eq!(read.prefix_sha256, Some(format!("{digest:x}")));
    assert_eq!(read.prefix_bytes, 8);
}

fn task(source: SourceKind, change: FileChange, found: Option<bool>) -> (FileTask, bool) {
    let known = state(100, 50);
    prepare_file_task(
        path("/sessions/a.jsonl"),
        source,
        &metadata(120),
        Some(&known),
        FileIdentity::default(),
        change,
        found,
        2,
    )
}

#[test]
fn appended_files_go_on_where_they_stopped() {
    let (task, skip) = task(SourceKind::Codex, FileChange::Append, None);
    assert!(!skip);
    assert_eq!(task.offset, 50);
    assert_eq!(task.turn_id, 5);
    assert_eq!(task.legacy_turn_id, Some(6));
    assert_eq!(task.size, 120);
    assert_eq!(task.mtime, 10);
    assert_eq!(task.pending_tool_calls.len(), 1);
    assert_eq!(task.codex_metadata_offsets, Some(vec![1, 2]));
    assert!(!task.delete_first());
    assert!(!task.parser_version_invalidated());
}

#[test]
fn replaced_files_start_over() {
    for change in [FileChange::Replaced, FileChange::ParserChanged] {
        let (task, skip) = task(SourceKind::Codex, change, None);
        assert!(!skip);
        assert_eq!(task.offset, 0);
        assert_eq!(task.turn_id, 0);
        assert_eq!(task.legacy_turn_id, Some(0));
        assert_eq!(task.pending_tool_calls.len(), 0);
        assert_eq!(task.codex_metadata_offsets, None);
        assert!(task.delete_first());
        assert_eq!(
            task.parser_version_invalidated(),
            change == FileChange::ParserChanged
        );
    }
}

#[test]
fn unchanged_files_are_skipped() {
    let (task, skip) = task(SourceKind::Pi, FileChange::Unchanged, None);
    assert!(skip);
    assert_eq!(task.offset, 50);
    assert_eq!(task.codex_metadata_offsets, None);
}

#[test]
fn a_late_background_marker_reparses_the_transcript() {
    let known = state(100, 50);
    assert_eq!(
        background_probe(SourceKind::Claude, 120, Some(&known), FileChange::Append),
        Some(50)
    );
    assert_eq!(
        background_probe(SourceKind::Claude, 50, Some(&known), FileChange::Append),
        None
    );
    assert_eq!(
        background_probe(SourceKind::Codex, 120, Some(&known), FileChange::Append),
        None
    );
    let mut unknown = state(100, 50);
    unknown.claude_background = None;
    assert_eq!(
        background_probe(SourceKind::Claude, 120, Some(&unknown), FileChange::Append),
        Some(0)
    );
    let (task, skip) = task(SourceKind::Claude, FileChange::Append, Some(true));
    assert!(!skip);
    assert_eq!(task.change, FileChange::Replaced);
    assert_eq!(task.offset, 0);
    assert_eq!(task.claude_background, None);
    assert!(task.delete_first());
    let resolved = resolve_claude_background(
        SourceKind::Claude,
        120,
        Some(&unknown),
        FileChange::Append,
        Some(true),
    );
    assert_eq!(resolved.background, Some(true));
    assert!(resolved.reparse);
    let unread = resolve_claude_background(
        SourceKind::Claude,
        120,
        Some(&known),
        FileChange::Append,
        None,
    );
    assert_eq!(unread.background, None);
    assert!(unread.reparse);
    let clean = resolve_claude_background(
        SourceKind::Claude,
        120,
        Some(&known),
        FileChange::Append,
        Some(false),
    );
    assert_eq!(clean.background, Some(false));
    assert!(!clean.reparse);
}

#[test]
fn patterns_exclude_paths_and_their_canonical_forms() {
    let none = PathExcluder::build(&vec![]).ok().unwrap();
    assert!(!none.is_active());
    assert!(!none.is_excluded(&path("/a/b.jsonl"), None));
    let some = PathExcluder::build(&vec!["**/private/**".to_string(), "*.tmp".to_string()])
        .ok()
        .unwrap();
    assert!(some.is_active());
    assert!(some.is_excluded(&path("/home/private/a.jsonl"), None));
    assert!(some.is_excluded(&path("/deep/inside/a.tmp"), None));
    assert!(!some.is_excluded(&path("/home/public/a.jsonl"), None));
    assert!(some.is_excluded(
        &path("/home/link/a.jsonl"),
        Some(&path("/home/private/a.jsonl"))
    ));
    assert!(!some.is_excluded(
        &path("/home/link/a.jsonl"),
        Some(&path("/home/public/a.jsonl"))
    ));
}

#[test]
fn the_first_broken_pattern_is_named() {
    let patterns = vec!["fine".to_string(), "a{b".to_string(), "[".to_string()];
    match PathExcluder::build(&patterns) {
        Err(ExcludeError::InvalidPattern(pattern)) => assert_eq!(pattern, "a{b"),
        _ => panic!("the pattern is broken"),
    }
}

#[test]
fn deeply_nested_patterns_do_not_compile() {
    let nested = |depth: usize| format!("{}a{}", "{".repeat(depth), "}".repeat(depth));
    assert!(PathExcluder::build(&vec![nested(20)]).is_ok());
    assert!(matches!(
        PathExcluder::build(&vec![nested(MAX_BRACE_DEPTH)]),
        Err(ExcludeError::NotCompiled)
    ));
    match PathExcluder::build(&vec!["[".to_string(), nested(100_000)]) {
        Err(ExcludeError::InvalidPattern(pattern)) => assert_eq!(pattern, "["),
        _ => panic!("the first pattern is broken"),
    }
    assert!(matches!(
        PathExcluder::build(&vec!["a".to_string(), nested(100_000), "b".to_string()]),
        Err(ExcludeError::NotCompiled)
    ));
    for broken in [
        "{".repeat(1_000),
        format!("{}}}", nested(1_000)),
        format!("{}[", nested(1_000)),
        format!("{}[z-a]", nested(1_000)),
        format!("{}\\", nested(1_000)),
        format!("{}}}", "{}".repeat(1_000)),
        format!("{{{}", "{{}}".repeat(1_000)),
        format!("{}]{}", "{".repeat(1_000), "}".repeat(999)),
    ] {
        match PathExcluder::build(&vec![nested(1_000), broken.clone(), "[".to_string()]) {
            Err(ExcludeError::InvalidPattern(pattern)) => assert_eq!(pattern, broken),
            _ => panic!("the second pattern is broken"),
        }
    }
    let flat = PathExcluder::build(&vec!["{a,b}".repeat(600)]).ok().unwrap();
    assert!(flat.is_excluded(&path(&"ab".repeat(300)), None));
    let flat = PathExcluder::build(&vec![format!("[xy]{}", "{a,b}".repeat(600))])
        .ok()
        .unwrap();
    assert!(flat.is_excluded(&path(&format!("x{}", "ab".repeat(300))), None));
    let escaped = PathExcluder::build(&vec!["\\{".repeat(600)]).ok().unwrap();
    assert!(escaped.is_excluded(&path(&"{".repeat(600)), None));
    let classes = PathExcluder::build(&vec!["[!]{][{]".repeat(600)]).ok().unwrap();
    assert!(classes.is_excluded(&path(&"a{".repeat(600)), None));
    let empty = format!("{}{}", "{".repeat(100_000), "}".repeat(100_000));
    for (pattern, matched, other) in [
        (format!("{empty}a"), "a", "ba"),
        (format!("{{{empty},a}}/b"), "a/b", "/b"),
        (format!("**{empty}/a[,{{]"), "x/a{", "x/a"),
        (format!("{{{empty},{empty}}}a\\}}"), "a}", "a"),
        (format!("{{{empty},**/c}}"), "a/b/c", "a/bc"),
    ] {
        let excluder = PathExcluder::build(&vec![pattern]).ok().unwrap();
        assert!(excluder.is_excluded(&path(matched), None));
        assert!(!excluder.is_excluded(&path(other), None));
        assert!(!excluder.is_excluded(&path(""), None));
    }
    for (deep, flat) in [("{{{}}}a", "{}a"), ("{{{},{}},**/c}", "{{},**/c}")] {
        let deep = PathExcluder::build(&vec![deep.to_string()]).ok().unwrap();
        let flat = PathExcluder::build(&vec![flat.to_string()]).ok().unwrap();
        for found in ["", "a", "c", "/c", "b/c", "bc", "{}a"] {
            assert_eq!(
                deep.is_excluded(&path(found), None),
                flat.is_excluded(&path(found), None)
            );
        }
    }
    assert!(!has_few_braces(&"{[}]".repeat(MAX_BRACE_DEPTH + 1)));
    assert!(!has_few_braces(&"{\\}".repeat(MAX_BRACE_DEPTH + 1)));
    assert!(has_few_braces(&"{}}".repeat(1_000)));
}

fn options() -> IngestOptions {
    IngestOptions {
        claude_sources: vec![path("/c")],
        include_agents: true,
        include_reasoning: false,
        include_codex: true,
        include_opencode: false,
        include_cursor: false,
        include_pi: true,
        include_omp: false,
        include_openclaw: false,
        include_copilot: false,
        include_grok: false,
        include_jcode: false,
        include_muse: true,
        include_antigravity: false,
        embeddings: false,
        exclude_patterns: vec!["*.x".to_string()],
    }
}

fn roots() -> DiscoveryRoots {
    DiscoveryRoots {
        codex: vec![path("/x"), path("/yy")],
        pi: vec![path("/p")],
        omp: vec![path("/ignored")],
    }
}

#[test]
fn projections_frame_options_roots_and_patterns() {
    let mut expected = b"memex-directory-discovery-v1".to_vec();
    expected.extend([1, 0, 1, 0, 0, 1, 0, 0, 0, 0, 0, 1, 0]);
    for list in [vec!["/c"], vec!["/x", "/yy"], vec!["/p"], vec![]] {
        expected.extend((list.len() as u64).to_le_bytes());
        for root in list {
            expected.extend((root.len() as u64).to_le_bytes());
            expected.extend(root.as_bytes());
        }
    }
    expected.extend(3u64.to_le_bytes());
    expected.extend(b"*.x");
    assert_eq!(projection_input(&options(), &roots()), expected);
    let digest = <sha2::Sha256 as sha2::Digest>::digest(&expected).to_vec();
    assert_eq!(directory_projection(&options(), &roots()), digest);
}

#[test]
fn projections_tell_their_inputs_apart() {
    let base = directory_projection(&options(), &roots());
    assert_eq!(base.len(), 32);
    let mut other = options();
    other.include_antigravity = !other.include_antigravity;
    assert_ne!(directory_projection(&other, &roots()), base);
    let mut other = options();
    other.include_muse = false;
    assert_ne!(directory_projection(&other, &roots()), base);
    let mut other = options();
    other.exclude_patterns = vec!["*.y".to_string()];
    assert_ne!(directory_projection(&other, &roots()), base);
    let mut moved = roots();
    moved.codex = vec![path("/x/yy")];
    assert_ne!(directory_projection(&options(), &moved), base);
    let mut ignored = roots();
    ignored.omp = vec![];
    assert_eq!(directory_projection(&options(), &ignored), base);
}

#[test]
fn a_full_scan_asks_every_included_source_in_order() {
    let mut wide = options();
    wide.claude_sources.push(path("/d"));
    wide.include_opencode = true;
    let steps = discovery_steps(&wide, true);
    assert_eq!(
        steps,
        [
            DiscoveryStep::Claude(0),
            DiscoveryStep::Claude(1),
            DiscoveryStep::CodexRollouts,
            DiscoveryStep::CodexHistory,
            DiscoveryStep::Pi,
            DiscoveryStep::Muse,
        ]
    );
    assert!(discovery_steps(&wide, false).is_empty());
}

#[test]
fn only_rollouts_name_their_session() {
    assert!(names_session(SourceKind::Codex, false));
    assert!(!names_session(SourceKind::Codex, true));
    assert!(!names_session(SourceKind::Pi, false));
    let history = SelectedFile {
        source: SourceKind::Codex,
        is_history: true,
    };
    let rollout = SelectedFile {
        source: SourceKind::Codex,
        is_history: false,
    };
    assert!(needs_session_ids(Some(&vec![rollout, history])));
    assert!(!needs_session_ids(Some(&vec![rollout])));
    assert!(!needs_session_ids(None));
}

#[test]
fn every_observation_counts() {
    let mut known: TextSet = SortedSet::new();
    known.insert("known".to_string());
    let (changed, changed_skip) = task(SourceKind::Pi, FileChange::Append, None);
    let (same, same_skip) = task(SourceKind::Pi, FileChange::Unchanged, None);
    let found = summarize(
        vec![
            Observed::Excluded,
            Observed::Missing {
                session_id: Some("gone".to_string()),
            },
            Observed::File {
                task: changed,
                skip: changed_skip,
                session_id: Some("one".to_string()),
            },
            Observed::File {
                task: same,
                skip: same_skip,
                session_id: None,
            },
        ],
        known,
    );
    assert_eq!(found.tasks.len(), 1);
    assert_eq!(found.unchanged_identities.len(), 1);
    assert_eq!(found.unchanged_identities[0].0, "/sessions/a.jsonl");
    assert_eq!(found.files_scanned, 2);
    assert_eq!(found.files_skipped, 3);
    assert_eq!(found.total_bytes, 240);
    assert_eq!(found.session_ids.list(), ["gone", "known", "one"]);
}

#[test]
fn sizes_beyond_the_machine_are_noticed() {
    let known: TextSet = SortedSet::new();
    let sized = |size: u64| {
        let (task, skip) = task(SourceKind::Pi, FileChange::Append, None);
        Observed::File {
            task: FileTask { size, ..task },
            skip,
            session_id: None,
        }
    };
    assert!(sizes_fit(&vec![], &known));
    assert!(sizes_fit(
        &vec![sized(u64::MAX - 1), Observed::Excluded, sized(1)],
        &known
    ));
    assert!(!sizes_fit(&vec![sized(u64::MAX), sized(1)], &known));
}
