//! Receipts of an index.

use memex_refresh::keys::TextSet;
use memex_refresh::receipt::{
    document_hash, merge_positions, merge_succeeded, multiset_hash, receipt, retained_ids,
    Receipt, ReceiptError, Segment,
};
use memex_refresh::sorted::SortedSet;

fn texts(list: &[&str]) -> Vec<String> {
    list.iter().map(|text| text.to_string()).collect()
}

fn kept() -> TextSet {
    SortedSet::from_list(&texts(&["a", "b", "c"]))
}

fn segment(id: &str, live_docs: u32, max_doc: u32, hashes: &[u8]) -> Segment {
    Segment {
        id: id.to_string(),
        live_docs,
        max_doc,
        hashes: hashes.iter().map(|byte| vec![*byte; 32]).collect(),
    }
}

fn segments() -> Vec<Segment> {
    vec![
        segment("a", 2, 100_000, &[9, 1]),
        segment("x", 1, 5, &[4]),
        segment("b", 0, 200_000, &[]),
        segment("c", 1, 100_001, &[7]),
        segment("y", 2, 99_999, &[3, 2]),
    ]
}

fn expected_hash(mut hashes: Vec<u8>) -> String {
    hashes.sort();
    let mut bytes = b"memex-stored-doc-multiset-v1\0".to_vec();
    bytes.extend((hashes.len() as u64).to_le_bytes());
    for byte in hashes {
        bytes.extend([byte; 32]);
    }
    format!("{:x}", <sha2::Sha256 as sha2::Digest>::digest(&bytes))
}

fn fault(result: Result<Receipt, ReceiptError>) -> ReceiptError {
    match result {
        Err(error) => error,
        Ok(_) => panic!("the receipt is faulty"),
    }
}

#[test]
fn exactly_three_segments_are_retained() {
    let ids = retained_ids(&texts(&["c", "a", "b", "a"])).ok().unwrap();
    assert_eq!(ids.list(), ["a", "b", "c"]);
    assert!(matches!(
        retained_ids(&texts(&["a", "b", "b"])),
        Err(ReceiptError::RetainedCount)
    ));
    assert!(matches!(
        retained_ids(&texts(&["a", "b", "c", "d"])),
        Err(ReceiptError::RetainedCount)
    ));
}

#[test]
fn receipts_tell_retained_segments_from_the_remainder() {
    let found = receipt(&segments(), &kept(), true, 6, 6).ok().unwrap();
    assert_eq!(found.live_docs, 6);
    assert_eq!(found.segments, 5);
    assert_eq!(found.retained.len(), 3);
    let a = found.retained.get(&"a".to_string()).unwrap();
    assert_eq!((a.live_docs, a.max_doc), (2, 100_000));
    assert_eq!(a.sha256, Some(expected_hash(vec![9, 1])));
    assert_eq!(found.remainder.live_docs, 3);
    assert_eq!(found.remainder.max_doc, 100_004);
    assert_eq!(found.remainder.segments, 2);
    assert_eq!(found.remainder.sha256, Some(expected_hash(vec![4, 3, 2])));
    assert_eq!(found.sha256, Some(expected_hash(vec![9, 1, 4, 7, 3, 2])));
    let plain = receipt(&segments(), &kept(), false, 6, 6).ok().unwrap();
    assert_eq!(plain.sha256, None);
    assert_eq!(plain.remainder.sha256, None);
}

#[test]
fn every_fault_of_an_index_is_named() {
    let mut wrong = segments();
    wrong[1].max_doc = 100_000;
    assert_eq!(
        fault(receipt(&wrong, &kept(), true, 6, 6)),
        ReceiptError::PartitionChanged
    );
    let mut wrong = segments();
    wrong[0].max_doc = 99_999;
    assert_eq!(
        fault(receipt(&wrong, &kept(), true, 6, 6)),
        ReceiptError::PartitionChanged
    );
    let mut wrong = segments();
    wrong[4].hashes.pop();
    assert_eq!(
        fault(receipt(&wrong, &kept(), true, 6, 6)),
        ReceiptError::HashCount
    );
    assert!(receipt(&wrong, &kept(), false, 6, 6).is_ok());
    let mut wrong = segments();
    wrong.remove(2);
    assert_eq!(
        fault(receipt(&wrong, &kept(), true, 6, 6)),
        ReceiptError::RetainedMissing
    );
    assert_eq!(
        fault(receipt(&segments(), &kept(), true, 6, 7)),
        ReceiptError::LiveDocs
    );
}

#[test]
fn fingerprints_ignore_the_order_of_documents() {
    let one = vec![vec![2u8; 32], vec![1u8; 32], vec![2u8; 32]];
    let two = vec![vec![1u8; 32], vec![2u8; 32], vec![2u8; 32]];
    let three = vec![vec![1u8; 32], vec![2u8; 32]];
    let hash = |hashes: &Vec<Vec<u8>>| multiset_hash(&mut hashes.clone());
    assert_eq!(hash(&one), expected_hash(vec![1, 2, 2]));
    assert_eq!(hash(&one), hash(&two));
    assert_ne!(hash(&one), hash(&three));
    assert_eq!(hash(&vec![]), expected_hash(vec![]));
    let mut sorted = one.clone();
    multiset_hash(&mut sorted);
    assert_eq!(sorted, two);
    for hashes in [&one, &three, &vec![]] {
        let fingerprint = hash(hashes);
        assert_eq!(fingerprint.len(), 64);
        assert!(fingerprint
            .bytes()
            .all(|byte| byte.is_ascii_digit() || (b'a'..=b'f').contains(&byte)));
    }
}

#[test]
fn document_hashes_ignore_the_order_of_fields() {
    let pair = |name: &str, value: &str| (name.to_string(), value.to_string());
    let one = vec![pair("b", "\"2\""), pair("a", "1"), pair("b", "\"1\"")];
    let two = vec![pair("a", "1"), pair("b", "\"1\""), pair("b", "\"2\"")];
    let document = br#"[["a","1"],["b","\"1\""],["b","\"2\""]]"#;
    let digest = <sha2::Sha256 as sha2::Digest>::digest(document).to_vec();
    assert_eq!(document_hash(&one), digest.clone());
    assert_eq!(document_hash(&two), digest);
}

#[test]
fn merges_take_everything_that_is_not_retained() {
    assert_eq!(
        merge_positions(&texts(&["a", "x", "b", "y"]), &kept()),
        Some(vec![1, 3])
    );
    assert_eq!(merge_positions(&texts(&["a", "b"]), &kept()), None);
}

#[test]
fn merges_keep_live_documents_and_drop_deleted_ones() {
    let before = receipt(&segments(), &kept(), false, 6, 6).ok().unwrap();
    let merged = |live: u32, max: u32| {
        let list = vec![
            segment("a", 2, 100_000, &[]),
            segment("b", 0, 200_000, &[]),
            segment("c", 1, 100_001, &[]),
            segment("z", live, max, &[]),
        ];
        receipt(&list, &kept(), false, 6, 6).ok().unwrap()
    };
    assert!(merge_succeeded(&before, &merged(3, 3)));
    assert!(!merge_succeeded(&before, &merged(3, 4)));
    assert!(!merge_succeeded(&before, &merged(2, 2)));
    assert!(!merge_succeeded(&before, &before));
}
