//! The checkpoint database itself, and the rules for opening and keeping it.

use memex_refresh::checkpoint::{parse_next_id, NextIdError, DATABASE, FORMAT_VERSION, SCHEMA};
use memex_refresh::lifecycle::{
    authority, bootstrap_identity, check_legacy_save, drawn_identity, lock_step, marker_document,
    new_identity, parse_marker, render_marker, reset_targets, truncate_completed,
    validate_metadata, Authority, AuthorityError, IdentityError, LockAttempt, LockStep,
    MarkerError, MetadataError, PragmaError, ReceiptError, SaveError, WriterPragmas,
};
use rusqlite::config::DbConfig;
use rusqlite::Connection;

fn configured(path: &std::path::Path) -> Connection {
    let connection = Connection::open(path).unwrap();
    connection.pragma_update(None, "journal_mode", "WAL").unwrap();
    connection.pragma_update(None, "synchronous", "FULL").unwrap();
    connection.pragma_update(None, "fullfsync", true).unwrap();
    connection.pragma_update(None, "checkpoint_fullfsync", true).unwrap();
    connection
        .set_db_config(DbConfig::SQLITE_DBCONFIG_NO_CKPT_ON_CLOSE, true)
        .unwrap();
    connection.pragma_update(None, "wal_autocheckpoint", 1000).unwrap();
    connection
        .pragma_update(None, "journal_size_limit", 16 * 1024 * 1024)
        .unwrap();
    connection
}

fn number(connection: &Connection, name: &str) -> i64 {
    connection
        .pragma_query_value(None, name, |row| row.get::<_, i64>(0))
        .unwrap()
}

fn pragmas(connection: &Connection) -> WriterPragmas {
    WriterPragmas {
        journal_mode: connection
            .pragma_query_value(None, "journal_mode", |row| row.get::<_, String>(0))
            .unwrap(),
        synchronous: number(connection, "synchronous"),
        fullfsync: number(connection, "fullfsync"),
        checkpoint_fullfsync: number(connection, "checkpoint_fullfsync"),
        wal_autocheckpoint: number(connection, "wal_autocheckpoint"),
        journal_size_limit: number(connection, "journal_size_limit"),
        no_checkpoint_on_close: connection
            .db_config(DbConfig::SQLITE_DBCONFIG_NO_CKPT_ON_CLOSE)
            .unwrap(),
    }
}

fn truncated(connection: &Connection) -> bool {
    let (busy, log, checkpointed) = connection
        .query_row("PRAGMA wal_checkpoint(TRUNCATE)", [], |row| {
            Ok((row.get(0)?, row.get(1)?, row.get(2)?))
        })
        .unwrap();
    truncate_completed(busy, log, checkpointed)
}

#[test]
fn every_writer_verifies_durable_sqlite_pragmas() {
    let directory = tempfile::tempdir().unwrap();
    let path = directory.path().join(DATABASE);
    for _ in 0..2 {
        let connection = configured(&path);
        let found = pragmas(&connection);
        assert_eq!(found.journal_mode, "wal");
        for (value, expected) in [
            (found.synchronous, 2),
            (found.fullfsync, 1),
            (found.checkpoint_fullfsync, 1),
            (found.wal_autocheckpoint, 1000),
            (found.journal_size_limit, 16 * 1024 * 1024),
        ] {
            assert_eq!(value, expected);
        }
        assert!(found.no_checkpoint_on_close);
        assert_eq!(found.verify(), Ok(()));
    }
}

#[test]
fn every_pragma_that_is_not_durable_is_named() {
    let good = || WriterPragmas {
        journal_mode: "WAL".to_string(),
        synchronous: 2,
        fullfsync: 1,
        checkpoint_fullfsync: 1,
        wal_autocheckpoint: 1000,
        journal_size_limit: 16 * 1024 * 1024,
        no_checkpoint_on_close: true,
    };
    assert_eq!(good().verify(), Ok(()));
    let mut bad = good();
    bad.journal_mode = "delete".to_string();
    assert_eq!(bad.verify(), Err(PragmaError::JournalMode));
    let mut bad = good();
    bad.synchronous = 1;
    assert_eq!(bad.verify(), Err(PragmaError::Synchronous));
    let mut bad = good();
    bad.fullfsync = 0;
    assert_eq!(bad.verify(), Err(PragmaError::FullFsync));
    let mut bad = good();
    bad.checkpoint_fullfsync = 0;
    assert_eq!(bad.verify(), Err(PragmaError::CheckpointFullFsync));
    let mut bad = good();
    bad.wal_autocheckpoint = 999;
    assert_eq!(bad.verify(), Err(PragmaError::WalAutocheckpoint));
    let mut bad = good();
    bad.journal_size_limit = -1;
    assert_eq!(bad.verify(), Err(PragmaError::JournalSizeLimit));
    let mut bad = good();
    bad.no_checkpoint_on_close = false;
    assert_eq!(bad.verify(), Err(PragmaError::CheckpointOnClose));
}

#[test]
fn schema_validates_generated_mtime_and_uses_its_index() {
    let connection = Connection::open_in_memory().unwrap();
    connection.execute_batch(SCHEMA).unwrap();
    for payload in [
        r#"{"mtime":"5"}"#,
        r#"{"mtime":1.5}"#,
        r#"{"mtime":18446744073709551615}"#,
        r#"{}"#,
    ] {
        assert!(connection
            .execute(
                "INSERT INTO files(path,payload) VALUES('bad',?1)",
                [payload]
            )
            .is_err());
    }
    let plan: String = connection
        .query_row(
            "EXPLAIN QUERY PLAN SELECT path,payload FROM files WHERE mtime>=?1",
            [1],
            |row| row.get(3),
        )
        .unwrap();
    assert!(plan.contains("files_mtime"), "{plan}");
    let path_type: String = connection
        .query_row(
            "SELECT type FROM pragma_table_info('files') WHERE name='path'",
            [],
            |row| row.get(0),
        )
        .unwrap();
    assert_eq!(path_type, "TEXT");
}

#[test]
fn truncate_reports_pinned_readers_and_completes_after_release() {
    let directory = tempfile::tempdir().unwrap();
    let path = directory.path().join(DATABASE);
    let writer = configured(&path);
    writer.execute_batch(SCHEMA).unwrap();
    writer
        .execute("INSERT INTO files(path,payload) VALUES('first','{\"mtime\":1}')", [])
        .unwrap();
    let pinned = Connection::open(&path).unwrap();
    pinned.execute_batch("BEGIN; SELECT * FROM files;").unwrap();
    writer
        .execute("INSERT INTO files(path,payload) VALUES('second','{\"mtime\":3}')", [])
        .unwrap();
    assert!(!truncated(&writer));
    pinned.execute_batch("ROLLBACK").unwrap();
    assert!(truncated(&writer));
    let wal = directory.path().join("checkpoints.sqlite-wal");
    assert_eq!(wal.metadata().unwrap().len(), 0);
}

#[test]
fn truncation_is_complete_only_without_anything_left() {
    assert!(truncate_completed(0, 0, 0));
    assert!(!truncate_completed(1, 0, 0));
    assert!(!truncate_completed(0, 3, 0));
    assert!(!truncate_completed(0, 3, 3));
    assert!(!truncate_completed(0, -1, -1));
}

#[test]
fn stored_ids_are_canonical() {
    assert_eq!(parse_next_id("1"), Ok(1));
    assert_eq!(parse_next_id("0"), Ok(0));
    assert_eq!(parse_next_id("18446744073709551615"), Ok(u64::MAX));
    assert_eq!(parse_next_id("01"), Err(NextIdError::Noncanonical));
    assert_eq!(parse_next_id("+1"), Err(NextIdError::Noncanonical));
    assert_eq!(parse_next_id(""), Err(NextIdError::Invalid));
    assert_eq!(parse_next_id("-1"), Err(NextIdError::Invalid));
    assert_eq!(parse_next_id(" 1"), Err(NextIdError::Invalid));
    assert_eq!(parse_next_id("18446744073709551616"), Err(NextIdError::Invalid));
}

#[test]
fn stored_ids_round_trip() {
    for id in [0, 1, 9, 10, 99, 100, 1_000_000, u64::MAX - 1, u64::MAX] {
        let text = memex_refresh::text::render_u64(id);
        assert_eq!(text, id.to_string());
        assert_eq!(parse_next_id(&text), Ok(id));
    }
}

#[test]
fn metadata_is_checked_in_order() {
    let identity = "a".repeat(64);
    let other = "b".repeat(64);
    assert_eq!(validate_metadata(FORMAT_VERSION, &identity, "7", &identity), Ok(7));
    assert_eq!(
        validate_metadata(2, &other, "x", &identity),
        Err(MetadataError::UnsupportedFormat)
    );
    assert_eq!(
        validate_metadata(FORMAT_VERSION, &other, "x", &identity),
        Err(MetadataError::IdentityMismatch)
    );
    assert_eq!(
        validate_metadata(FORMAT_VERSION, &identity, "07", &identity),
        Err(MetadataError::NextId(NextIdError::Noncanonical))
    );
}

#[test]
fn markers_round_trip() {
    let identity = "0123456789abcdef".repeat(4);
    let text = render_marker(&identity);
    assert_eq!(text, format!("memex-checkpoints:1:{identity}"));
    assert_eq!(parse_marker(&text), Ok(identity.clone()));
    let document = marker_document(&identity);
    assert_eq!(document, format!("\"{text}\"").into_bytes());
    match authority(Some(&document), false) {
        Ok(Authority::Marker(found)) => assert_eq!(found, identity),
        _ => panic!("the marker has authority"),
    }
}

#[test]
fn every_broken_marker_is_named() {
    let identity = "0".repeat(64);
    assert_eq!(parse_marker("checkpoints"), Err(MarkerError::UnknownMarker));
    assert_eq!(
        parse_marker("memex-checkpoints:broken"),
        Err(MarkerError::Malformed)
    );
    assert_eq!(
        parse_marker(&format!("memex-checkpoints:99:{identity}")),
        Err(MarkerError::UnsupportedVersion)
    );
    assert_eq!(
        parse_marker(&format!("memex-checkpoints:1:{}", "0".repeat(63))),
        Err(MarkerError::InvalidIdentity)
    );
    assert_eq!(
        parse_marker(&format!("memex-checkpoints:1:{}", "A".repeat(64))),
        Err(MarkerError::InvalidIdentity)
    );
}

#[test]
fn authority_is_classified_by_its_document() {
    assert!(matches!(authority(None, false), Ok(Authority::Missing)));
    let broken = b"{".to_vec();
    assert!(matches!(
        authority(Some(&broken), false),
        Err(AuthorityError::InvalidJson)
    ));
    let state = b"{\"next_doc_id\":1,\"files\":{}}".to_vec();
    assert!(matches!(authority(Some(&state), true), Ok(Authority::Legacy)));
    assert!(matches!(
        authority(Some(&state), false),
        Err(AuthorityError::InvalidLegacy)
    ));
    let marker = b"\"unknown\"".to_vec();
    assert!(matches!(
        authority(Some(&marker), true),
        Err(AuthorityError::InvalidMarker(MarkerError::UnknownMarker))
    ));
}

#[test]
fn bootstrap_receipts_name_an_identity() {
    let identity = "c".repeat(64);
    assert_eq!(
        bootstrap_identity(&format!("bootstrap:{identity}")),
        Ok(identity)
    );
    assert_eq!(bootstrap_identity(""), Err(ReceiptError::NoReceipt));
    assert_eq!(
        bootstrap_identity("bootstrap:short"),
        Err(ReceiptError::InvalidIdentity)
    );
}

#[test]
fn new_identities_are_valid_and_differ() {
    let first = new_identity().unwrap();
    let second = new_identity().unwrap();
    assert_eq!(first.len(), 64);
    assert!(first.bytes().all(|byte| byte.is_ascii_digit() || (b'a'..=b'f').contains(&byte)));
    assert_ne!(first, second);
}

#[test]
fn identities_are_the_digits_of_what_was_drawn() {
    let mut bytes = [0u8; 32];
    bytes[0] = 0x1f;
    bytes[31] = 0xa0;
    assert_eq!(
        drawn_identity(Ok(bytes)),
        Ok(format!("1f{}a0", "00".repeat(30)))
    );
    assert_eq!(
        drawn_identity(Err(getrandom::Error::UNSUPPORTED)),
        Err(IdentityError::NoRandomness)
    );
}

#[test]
fn lifecycle_lock_is_waited_for_and_given_up() {
    assert_eq!(lock_step(LockAttempt::Acquired, 0), LockStep::Proceed);
    assert_eq!(lock_step(LockAttempt::Acquired, 9_999), LockStep::Proceed);
    assert_eq!(
        lock_step(LockAttempt::WouldBlock, 0),
        LockStep::RetryAfterMillis(10)
    );
    assert_eq!(
        lock_step(LockAttempt::WouldBlock, 499),
        LockStep::RetryAfterMillis(10)
    );
    assert_eq!(lock_step(LockAttempt::WouldBlock, 500), LockStep::Busy);
    assert_eq!(lock_step(LockAttempt::Failed, 0), LockStep::Fail);
}

#[test]
fn markers_are_never_overwritten_by_a_document() {
    let marker = marker_document(&"d".repeat(64));
    assert_eq!(
        check_legacy_save(Some(&marker), true, false),
        Err(SaveError::MarkerPresent)
    );
    assert_eq!(
        check_legacy_save(Some(&marker), false, false),
        Err(SaveError::MarkerPresent)
    );
    let state = b"{\"next_doc_id\":1,\"files\":{}}".to_vec();
    assert_eq!(check_legacy_save(Some(&state), true, true), Ok(()));
    assert_eq!(
        check_legacy_save(Some(&state), true, false),
        Err(SaveError::InvalidAuthority)
    );
    assert_eq!(check_legacy_save(Some(&b"junk".to_vec()), false, false), Ok(()));
    assert_eq!(check_legacy_save(None, false, false), Ok(()));
    assert_eq!(
        check_legacy_save(None, true, false),
        Err(SaveError::MissingAuthority)
    );
}

#[test]
fn a_reset_leaves_lock_and_archives_alone() {
    let targets = reset_targets();
    assert_eq!(
        targets,
        [
            "checkpoints.sqlite",
            "checkpoints.sqlite-wal",
            "checkpoints.sqlite-shm",
            "checkpoints.sqlite-journal",
        ]
    );
}
