//! Replays of a change journal.

use memex_refresh::journal::{
    plan_replay, replay, watched_roots, Collector, JournalCursor, JournalReplay, Replay,
    ReplayPlan, RootObservation, HISTORY_DONE, ITEM_IS_DIR, MAX_REPLAY_DISTANCE,
    REPLAY_TIMEOUT_MILLIS, RENAMED_OR_REMOVED,
};
use memex_refresh::path::FilePath;
use std::time::Duration;

fn path(text: &str) -> FilePath {
    FilePath::new(text.as_bytes().to_vec())
}

fn cursor(event_id: u64) -> JournalCursor {
    JournalCursor {
        device_uuid: "volume".to_string(),
        event_id,
    }
}

fn finished(plan: ReplayPlan) -> JournalReplay {
    match plan {
        ReplayPlan::Finished(replay) => replay,
        ReplayPlan::Stream { .. } => panic!("no events are needed"),
    }
}

fn reason(replay: &JournalReplay) -> &'static str {
    match &replay.outcome {
        Replay::Unusable(reason) => reason,
        Replay::Changed(_) => panic!("the replay is usable"),
    }
}

#[test]
fn platforms_without_a_journal_are_unsupported() {
    let replay = replay(
        &[path("/tmp")],
        None,
        Duration::from_millis(REPLAY_TIMEOUT_MILLIS),
    );
    assert!(replay.next.is_none());
    assert_eq!(reason(&replay), "unsupported platform");
}

#[test]
fn a_foreign_or_future_cursor_is_unusable() {
    let volume = || Some("volume".to_string());
    let current = 2_000_000;
    let foreign = JournalCursor {
        device_uuid: "not-this-volume".into(),
        event_id: current,
    };
    let answer = finished(plan_replay(volume(), current, Some(&foreign)));
    assert_eq!(reason(&answer), "device changed");
    assert_eq!(answer.next, Some(cursor(current)));
    let future = cursor(u64::MAX / 2);
    let answer = finished(plan_replay(volume(), current, Some(&future)));
    assert_eq!(reason(&answer), "cursor ahead of journal");
    let stale = cursor(current.saturating_sub(MAX_REPLAY_DISTANCE + 1));
    let answer = finished(plan_replay(volume(), current, Some(&stale)));
    assert_eq!(reason(&answer), "cursor too far behind");
    let Err(answer) = watched_roots(&vec![]) else {
        panic!("there are no roots")
    };
    assert_eq!(reason(&answer), "no roots");
}

#[test]
fn a_replay_names_the_files_written_since_the_cursor_and_nothing_older() {
    let volume = || Some("volume".to_string());
    let first = finished(plan_replay(volume(), 40, None));
    assert_eq!(reason(&first), "no cursor");
    let seen = first.next.expect("cursor on a journaled volume");
    let ReplayPlan::Stream { next, since } = plan_replay(volume(), 50, Some(&seen)) else {
        panic!("events are needed")
    };
    assert_eq!(since, 40);
    let mut collector = Collector::new();
    assert!(collector.waiting());
    collector.observe(b"/sessions/new.jsonl", 0);
    collector.observe(b"/sessions/deep/agent.jsonl", 0);
    collector.observe(b"", HISTORY_DONE);
    assert!(!collector.waiting());
    let second = collector.conclude(next, Ok(()));
    assert_eq!(second.next, Some(cursor(50)));
    let Replay::Changed(paths) = second.outcome else {
        panic!("the replay is usable")
    };
    assert!(paths.contains(&path("/sessions/new.jsonl")));
    assert!(paths.contains(&path("/sessions/deep/agent.jsonl")));
    assert!(!paths.contains(&path("/sessions/old.jsonl")));
    assert_eq!(paths.len(), 2);
}

#[test]
fn a_cursor_at_the_end_of_the_journal_needs_no_events() {
    let answer = finished(plan_replay(Some("volume".to_string()), 7, Some(&cursor(7))));
    let Replay::Changed(paths) = answer.outcome else {
        panic!("nothing changed")
    };
    assert_eq!(paths.len(), 0);
    let furthest = cursor(MAX_REPLAY_DISTANCE);
    let plan = plan_replay(
        Some("volume".to_string()),
        2 * MAX_REPLAY_DISTANCE,
        Some(&furthest),
    );
    assert!(matches!(plan, ReplayPlan::Stream { .. }));
}

#[test]
fn volumes_without_an_identity_have_no_cursor() {
    let answer = finished(plan_replay(None, 7, Some(&cursor(7))));
    assert!(answer.next.is_none());
    assert!(matches!(answer.outcome, Replay::Unusable(_)));
}

#[test]
fn roots_on_two_devices_are_unusable() {
    let on = |text: &str, device: Option<u64>| RootObservation {
        path: path(text),
        device,
    };
    let Err(answer) = watched_roots(&vec![on("/a", Some(1)), on("/b", Some(2))]) else {
        panic!("the roots span devices")
    };
    assert_eq!(reason(&answer), "roots span devices");
    let Ok((device, paths)) =
        watched_roots(&vec![on("/a", Some(1)), on("/gone", None), on("/b", Some(1))])
    else {
        panic!("the roots share a device")
    };
    assert_eq!(device, 1);
    assert_eq!(paths.len(), 2);
    assert_eq!(paths[0].bytes(), b"/a");
    assert_eq!(paths[1].bytes(), b"/b");
}

#[test]
fn lost_history_makes_a_replay_incomplete() {
    let mut collector = Collector::new();
    collector.observe(b"/a", 0x1);
    assert!(!collector.waiting());
    let answer = collector.conclude(cursor(9), Ok(()));
    assert_eq!(reason(&answer), "journal incomplete");
    let collector = Collector::new();
    let answer = collector.conclude(cursor(9), Ok(()));
    assert_eq!(reason(&answer), "replay timed out");
    let collector = Collector::new();
    let answer = collector.conclude(cursor(9), Err("stream failed"));
    assert_eq!(reason(&answer), "stream failed");
    assert_eq!(answer.next, Some(cursor(9)));
}

#[test]
fn directories_count_only_where_they_were_moved_or_removed() {
    let mut collector = Collector::new();
    collector.observe(b"/kept/", ITEM_IS_DIR);
    collector.observe(b"/moved/", ITEM_IS_DIR | 0x800);
    collector.observe(b"/removed//", ITEM_IS_DIR | 0x200);
    collector.observe(b"/", 0);
    collector.observe(b"/sessions/\xff.jsonl", 0);
    collector.observe(b"", HISTORY_DONE | 0x1);
    assert_eq!(RENAMED_OR_REMOVED, 0x800 | 0x200);
    let Replay::Changed(paths) = collector.conclude(cursor(9), Ok(())).outcome else {
        panic!("the replay is usable")
    };
    assert_eq!(paths.len(), 3);
    assert!(paths.contains(&path("/moved")));
    assert!(paths.contains(&path("/removed")));
    assert!(paths.contains(&path("/sessions/\u{fffd}.jsonl")));
}
