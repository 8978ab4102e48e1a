//! Receipts of an index: how its documents are spread over its segments, and fingerprints of
//! what is stored.

use vstd::bytes::{
    lemma_auto_spec_u64_to_from_le_bytes, spec_u64_from_le_bytes, spec_u64_to_le_bytes,
    u64_to_le_bytes,
};
use vstd::prelude::*;
use vstd::utf8::encode_utf8;
use crate::keys::{TextMap, TextSet};
use crate::model::{lemma_bytes_model, Modeled};
use crate::outside::{json_pairs, sha256, sha256_of, write_pairs};
use crate::sorted::{
    in_rank_order, lemma_sorting_ignores_order, lemma_sorting_keeps_items, sorted_list, SortedMap,
    SortedSet,
};
use crate::text::{hex, hex_of, is_identity, lemma_hex_digits};

verus! {

/// The number of segments that are left as they are.
pub const RETAINED_SEGMENTS: usize = 3;

/// The number of documents, deleted ones included, that a retained segment holds at least.
pub const RETAINED_MIN_DOCS: u32 = 100000;

/// What a receipt can fail on.
#[derive(Clone, Copy, Debug, PartialEq, Eq, Structural)]
pub enum ReceiptError {
    /// There are not as many retained segments as expected.
    RetainedCount,
    /// A segment is not on the side that its size puts it on.
    PartitionChanged,
    /// A segment has not as many stored documents as it counts.
    HashCount,
    /// A retained segment is gone.
    RetainedMissing,
    /// The index holds another number of documents than expected.
    LiveDocs,
}

/// The ids of the retained segments: each once, and as many as expected.
pub fn retained_ids(ids: &Vec<String>) -> (retained: Result<TextSet, ReceiptError>)
    ensures
        match retained {
            Ok(set) => set.deep_view() == ids.deep_view().to_set() && set.deep_view().len()
                == RETAINED_SEGMENTS,
            Err(error) => error == ReceiptError::RetainedCount && ids.deep_view().to_set().len()
                != RETAINED_SEGMENTS,
        },
{
    let set = SortedSet::from_list(ids);
    if set.len() == RETAINED_SEGMENTS {
        Ok(set)
    } else {
        Err(ReceiptError::RetainedCount)
    }
}

/// What stands before the hashes in a fingerprint.
pub open spec fn fingerprint_prefix() -> Seq<u8> {
    encode_utf8("memex-stored-doc-multiset-v1"@).push(0)
}

/// Byte strings one behind the other.
pub open spec fn concatenated(parts: Seq<Seq<u8>>) -> Seq<u8>
    decreases parts.len(),
{
    if parts.len() == 0 {
        Seq::empty()
    } else {
        concatenated(parts.drop_last()) + parts.last()
    }
}

/// What the fingerprint of a multiset of hashes is the digest of: the hashes in order, behind
/// their number.
pub open spec fn fingerprint_input(hashes: Seq<Seq<u8>>) -> Seq<u8> {
    fingerprint_prefix() + spec_u64_to_le_bytes(hashes.len() as u64) + concatenated(
        in_rank_order::<Vec<u8>>(hashes),
    )
}

/// The number of bytes of a hash.
pub const HASH_LEN: usize = 32;

/// The fingerprint of a multiset of hashes.
pub open spec fn fingerprint_of(hashes: Seq<Seq<u8>>) -> Seq<char> {
    hex_of(sha256_of(fingerprint_input(hashes)))
}

/// The fingerprint of a multiset of hashes, which are sorted on the way.
pub fn multiset_hash(hashes: &mut Vec<Vec<u8>>) -> (fingerprint: String)
    ensures
        final(hashes).deep_view() == in_rank_order::<Vec<u8>>(old(hashes).deep_view()),
        fingerprint@ == fingerprint_of(old(hashes).deep_view()),
        is_identity(fingerprint@),
{
    let mut bytes: Vec<u8> = Vec::new();
    bytes.extend_from_slice("memex-stored-doc-multiset-v1".as_bytes());
    bytes.push(0);
    assert(bytes@ =~= fingerprint_prefix());
    let length = u64_to_le_bytes(hashes.len() as u64);
    bytes.extend_from_slice(length.as_slice());
    let ghost start = bytes@;
    assert(start =~= fingerprint_prefix() + spec_u64_to_le_bytes(hashes@.len() as u64));
    let sorted = sorted_list(&*hashes);
    let ghost models = sorted.deep_view();
    let mut i: usize = 0;
    assert(bytes@ =~= start + concatenated(models.take(0)));
    while i < sorted.len()
        invariant
            i <= sorted@.len(),
            models == sorted.deep_view(),
            bytes@ == start + concatenated(models.take(i as int)),
        decreases sorted@.len() - i,
    {
        proof {
            lemma_bytes_model(sorted@[i as int]);
            assert(models[i as int] == sorted@[i as int]@);
            assert(models.take(i + 1).drop_last() =~= models.take(i as int));
            assert(models.take(i + 1).last() == models[i as int]);
        }
        bytes.extend_from_slice(sorted[i].as_slice());
        assert(bytes@ =~= start + concatenated(models.take(i + 1)));
        i += 1;
    }
    assert(models.take(i as int) =~= models);
    *hashes = sorted;
    let digest = sha256(bytes.as_slice());
    proof {
        lemma_hex_digits(digest@);
    }
    hex(digest.as_slice())
}

/// The order in which documents are stored does not matter to their fingerprint.
pub proof fn law_fingerprint_ignores_order(left: Seq<Seq<u8>>, right: Seq<Seq<u8>>)
    requires
        left.to_multiset() == right.to_multiset(),
    ensures
        fingerprint_of(left) == fingerprint_of(right),
{
    broadcast use vstd::seq_lib::group_to_multiset_ensures;

    lemma_sorting_ignores_order::<Vec<u8>>(left, right);
    assert(left.len() == left.to_multiset().len());
    assert(right.len() == right.to_multiset().len());
}

/// Every hash has the length of a digest.
pub open spec fn are_hashes(hashes: Seq<Seq<u8>>) -> bool {
    forall|i: int| 0 <= i < hashes.len() ==> (#[trigger] hashes[i]).len() == HASH_LEN
}

proof fn lemma_equal_parts(left: Seq<Seq<u8>>, right: Seq<Seq<u8>>)
    requires
        are_hashes(left),
        are_hashes(right),
        left.len() == right.len(),
        concatenated(left) == concatenated(right),
    ensures
        left == right,
    decreases left.len(),
{
    if left.len() > 0 {
        let a = concatenated(left.drop_last());
        let b = concatenated(right.drop_last());
        let n = left.len() - 1;
        assert(left[n].len() == HASH_LEN && right[n].len() == HASH_LEN);
        assert(concatenated(left).len() == a.len() + HASH_LEN);
        assert(concatenated(right).len() == b.len() + HASH_LEN);
        assert(a.len() == b.len());
        assert(a =~= concatenated(left).take(a.len() as int));
        assert(b =~= concatenated(right).take(b.len() as int));
        assert(left.last() =~= concatenated(left).skip(a.len() as int));
        assert(right.last() =~= concatenated(right).skip(b.len() as int));
        assert(are_hashes(left.drop_last()));
        assert(are_hashes(right.drop_last()));
        lemma_equal_parts(left.drop_last(), right.drop_last());
        assert(left =~= left.drop_last().push(left.last()));
        assert(right =~= right.drop_last().push(right.last()));
    } else {
        assert(left =~= right);
    }
}

proof fn lemma_sorted_hashes(hashes: Seq<Seq<u8>>)
    requires
        are_hashes(hashes),
    ensures
        are_hashes(in_rank_order::<Vec<u8>>(hashes)),
        in_rank_order::<Vec<u8>>(hashes).len() == hashes.len(),
        in_rank_order::<Vec<u8>>(hashes).to_multiset() == hashes.to_multiset(),
{
    broadcast use vstd::seq_lib::group_to_multiset_ensures;

    let sorted = in_rank_order::<Vec<u8>>(hashes);
    lemma_sorting_keeps_items::<Vec<u8>>(hashes);
    assert(hashes.len() == hashes.to_multiset().len());
    assert(sorted.len() == sorted.to_multiset().len());
    assert forall|i: int| 0 <= i < sorted.len() implies (#[trigger] sorted[i]).len() == HASH_LEN by {
        assert(sorted.contains(sorted[i]));
        assert(sorted.to_multiset().count(sorted[i]) > 0);
        assert(hashes.contains(sorted[i]));
        let k = choose|k: int| 0 <= k < hashes.len() && hashes[k] == sorted[i];
        assert(hashes[k].len() == HASH_LEN);
    }
}

proof fn lemma_count_bytes(left: u64, right: u64)
    requires
        spec_u64_to_le_bytes(left) == spec_u64_to_le_bytes(right),
    ensures
        left == right,
{
    lemma_auto_spec_u64_to_from_le_bytes();
    assert(spec_u64_from_le_bytes(spec_u64_to_le_bytes(left)) == left);
    assert(spec_u64_from_le_bytes(spec_u64_to_le_bytes(right)) == right);
}

/// What a fingerprint is the digest of tells which documents there are and how often: one more
/// document, or one less, always changes it.
pub proof fn law_fingerprint_input_identifies_the_documents(
    left: Seq<Seq<u8>>,
    right: Seq<Seq<u8>>,
    more: Seq<u8>,
)
    requires
        are_hashes(left),
        are_hashes(right),
        left.len() <= u64::MAX,
        right.len() <= u64::MAX,
        more.len() == HASH_LEN,
    ensures
        fingerprint_input(left) == fingerprint_input(right) ==> left.to_multiset()
            == right.to_multiset(),
        left.len() < u64::MAX ==> fingerprint_input(left.push(more)) != fingerprint_input(left),
{
    lemma_documents_from_input(left, right);
    if left.len() < u64::MAX {
        broadcast use vstd::seq_lib::group_to_multiset_ensures;

        let longer = left.push(more);
        assert forall|i: int| 0 <= i < longer.len() implies (#[trigger] longer[i]).len()
            == HASH_LEN by {
            if i < left.len() {
                assert(longer[i] == left[i]);
            }
        }
        lemma_documents_from_input(longer, left);
        assert(longer.to_multiset().len() == longer.len());
        assert(left.to_multiset().len() == left.len());
    }
}

proof fn lemma_documents_from_input(left: Seq<Seq<u8>>, right: Seq<Seq<u8>>)
    requires
        are_hashes(left),
        are_hashes(right),
        left.len() <= u64::MAX,
        right.len() <= u64::MAX,
    ensures
        fingerprint_input(left) == fingerprint_input(right) ==> left.to_multiset()
            == right.to_multiset(),
{
    if fingerprint_input(left) == fingerprint_input(right) {
        let prefix = fingerprint_prefix();
        let count = spec_u64_to_le_bytes(left.len() as u64);
        let other = spec_u64_to_le_bytes(right.len() as u64);
        let a = concatenated(in_rank_order::<Vec<u8>>(left));
        let b = concatenated(in_rank_order::<Vec<u8>>(right));
        lemma_auto_spec_u64_to_from_le_bytes();
        assert(count.len() == 8 && other.len() == 8);
        let start = prefix.len() as int;
        assert(count =~= (prefix + count + a).subrange(start, start + 8));
        assert(other =~= (prefix + other + b).subrange(start, start + 8));
        lemma_count_bytes(left.len() as u64, right.len() as u64);
        assert(a =~= (prefix + count + a).skip(start + 8));
        assert(b =~= (prefix + other + b).skip(start + 8));
        lemma_sorted_hashes(left);
        lemma_sorted_hashes(right);
        lemma_equal_parts(in_rank_order::<Vec<u8>>(left), in_rank_order::<Vec<u8>>(right));
    }
}

/// The hash of a document: the digest of its fields in order, each with its name and its value.
pub open spec fn document_hash_of(fields: Seq<(Seq<char>, Seq<char>)>) -> Seq<u8> {
    sha256_of(json_pairs(in_rank_order::<(String, String)>(fields)))
}

/// The hash of a document, given the names and the written values of its fields.
pub fn document_hash(fields: &Vec<(String, String)>) -> (hash: Vec<u8>)
    ensures
        hash@ == document_hash_of(fields.deep_view()),
        hash@.len() == HASH_LEN,
{
    sha256(write_pairs(&sorted_list(fields)).unwrap().as_slice())
}

/// The order in which a document stores its fields does not matter to its hash.
pub proof fn law_document_hash_ignores_field_order(
    left: Seq<(Seq<char>, Seq<char>)>,
    right: Seq<(Seq<char>, Seq<char>)>,
)
    requires
        left.to_multiset() == right.to_multiset(),
    ensures
        document_hash_of(left) == document_hash_of(right),
{
    lemma_sorting_ignores_order::<(String, String)>(left, right);
}

/// A segment of an index. Its hashes are only read where fingerprints are asked for.
pub struct Segment {
    pub id: String,
    pub live_docs: u32,
    pub max_doc: u32,
    pub hashes: Vec<Vec<u8>>,
}

/// A retained segment in a receipt.
pub struct Partition {
    pub live_docs: u32,
    pub max_doc: u32,
    pub sha256: Option<String>,
}

/// The model of [`Partition`].
#[verifier::ext_equal]
pub struct PartitionModel {
    pub live_docs: u32,
    pub max_doc: u32,
    pub sha256: Option<Seq<char>>,
}

impl DeepView for Partition {
    type V = PartitionModel;

    open spec fn deep_view(&self) -> PartitionModel {
        PartitionModel {
            live_docs: self.live_docs,
            max_doc: self.max_doc,
            sha256: self.sha256.deep_view(),
        }
    }
}

impl Modeled for Partition {
    fn duplicate(&self) -> (copy: Self) {
        Partition {
            live_docs: self.live_docs,
            max_doc: self.max_doc,
            sha256: self.sha256.duplicate(),
        }
    }

    fn same(&self, other: &Self) -> (equal: bool) {
        self.live_docs == other.live_docs && self.max_doc == other.max_doc && self.sha256.same(
            &other.sha256,
        )
    }
}

/// The segments that are not retained, in a receipt.
pub struct Remainder {
    pub live_docs: u64,
    pub max_doc: u64,
    pub segments: usize,
    pub sha256: Option<String>,
}

/// How the documents of an index are spread over its segments.
pub struct Receipt {
    pub live_docs: u64,
    pub segments: usize,
    pub retained: TextMap<Partition>,
    pub remainder: Remainder,
    pub sha256: Option<String>,
}

/// The segment is retained.
pub open spec fn is_retained(segment: Segment, retained: Set<Seq<char>>) -> bool {
    retained.contains(segment.id@)
}

/// What a segment fails on, if anything.
pub open spec fn segment_fault(
    segment: Segment,
    retained: Set<Seq<char>>,
    fingerprint: bool,
) -> Option<ReceiptError> {
    if is_retained(segment, retained) != (segment.max_doc >= RETAINED_MIN_DOCS) {
        Some(ReceiptError::PartitionChanged)
    } else if fingerprint && segment.hashes@.len() != segment.live_docs {
        Some(ReceiptError::HashCount)
    } else {
        None
    }
}

/// What the first `n` segments fail on first, if anything.
pub open spec fn first_fault(
    segments: Seq<Segment>,
    retained: Set<Seq<char>>,
    fingerprint: bool,
    n: int,
) -> Option<ReceiptError>
    decreases n,
{
    if n <= 0 {
        None
    } else {
        match first_fault(segments, retained, fingerprint, n - 1) {
            Some(fault) => Some(fault),
            None => segment_fault(segments[n - 1], retained, fingerprint),
        }
    }
}

/// A fingerprint, where one is asked for.
pub open spec fn fingerprint_if(fingerprint: bool, hashes: Seq<Seq<u8>>) -> Option<Seq<char>> {
    if fingerprint {
        Some(fingerprint_of(hashes))
    } else {
        None
    }
}

/// The retained ones among the first `n` segments.
pub open spec fn retained_upto(
    segments: Seq<Segment>,
    retained: Set<Seq<char>>,
    fingerprint: bool,
    n: int,
) -> Map<Seq<char>, PartitionModel>
    decreases n,
{
    if n <= 0 {
        Map::empty()
    } else {
        let rest = retained_upto(segments, retained, fingerprint, n - 1);
        let segment = segments[n - 1];
        if is_retained(segment, retained) {
            rest.insert(
                segment.id@,
                PartitionModel {
                    live_docs: segment.live_docs,
                    max_doc: segment.max_doc,
                    sha256: fingerprint_if(fingerprint, segment.hashes.deep_view()),
                },
            )
        } else {
            rest
        }
    }
}

/// The remaining ones among the first `n` segments.
pub open spec fn remaining_upto(
    segments: Seq<Segment>,
    retained: Set<Seq<char>>,
    n: int,
) -> Seq<Segment>
    decreases n,
{
    if n <= 0 {
        Seq::empty()
    } else if is_retained(segments[n - 1], retained) {
        remaining_upto(segments, retained, n - 1)
    } else {
        remaining_upto(segments, retained, n - 1).push(segments[n - 1])
    }
}

/// The live documents of segments.
pub open spec fn live_total(segments: Seq<Segment>) -> nat
    decreases segments.len(),
{
    if segments.len() == 0 {
        0
    } else {
        live_total(segments.drop_last()) + segments.last().live_docs as nat
    }
}

/// The documents of segments, deleted ones included.
pub open spec fn doc_total(segments: Seq<Segment>) -> nat
    decreases segments.len(),
{
    if segments.len() == 0 {
        0
    } else {
        doc_total(segments.drop_last()) + segments.last().max_doc as nat
    }
}

/// The hashes of all documents of segments.
pub open spec fn all_hashes(segments: Seq<Segment>) -> Seq<Seq<u8>>
    decreases segments.len(),
{
    if segments.len() == 0 {
        Seq::empty()
    } else {
        all_hashes(segments.drop_last()) + segments.last().hashes.deep_view()
    }
}

/// What a receipt fails on, if anything.
pub open spec fn receipt_fault(
    segments: Seq<Segment>,
    retained: Set<Seq<char>>,
    fingerprint: bool,
    live_docs: u64,
    expected: u64,
) -> Option<ReceiptError> {
    let n = segments.len() as int;
    match first_fault(segments, retained, fingerprint, n) {
        Some(fault) => Some(fault),
        None => if retained_upto(segments, retained, fingerprint, n).dom() != retained {
            Some(ReceiptError::RetainedMissing)
        } else if live_docs != expected {
            Some(ReceiptError::LiveDocs)
        } else {
            None
        },
    }
}

fn copy_hashes(all: &mut Vec<Vec<u8>>, more: &Vec<Vec<u8>>)
    ensures
        final(all).deep_view() == old(all).deep_view() + more.deep_view(),
{
    let ghost before = all.deep_view();
    let ghost models = more.deep_view();
    let mut i: usize = 0;
    assert(all.deep_view() =~= before + models.take(0));
    while i < more.len()
        invariant
            i <= more@.len(),
            models == more.deep_view(),
            all.deep_view() == before + models.take(i as int),
        decreases more@.len() - i,
    {
        let ghost shorter = all.deep_view();
        let copy = more[i].duplicate();
        assert(models[i as int] == copy.deep_view());
        all.push(copy);
        assert(all.deep_view() =~= shorter.push(models[i as int]));
        assert(all.deep_view() =~= before + models.take(i + 1));
        i += 1;
    }
    assert(models.take(i as int) =~= models);
}

fn hash_if(fingerprint: bool, hashes: &mut Vec<Vec<u8>>) -> (sha256: Option<String>)
    ensures
        sha256.deep_view() == fingerprint_if(fingerprint, old(hashes).deep_view()),
{
    if fingerprint {
        Some(multiset_hash(hashes))
    } else {
        None
    }
}

/// Writes the receipt of an index with these segments. An index has fewer segments than a
/// machine integer of half the width can count.
pub fn receipt(
    segments: &Vec<Segment>,
    retained: &TextSet,
    fingerprint: bool,
    live_docs: u64,
    expected: u64,
) -> (receipt: Result<Receipt, ReceiptError>)
    requires
        segments@.len() <= u32::MAX,
    ensures
        ({
            let kept = retained.deep_view();
            let n = segments@.len() as int;
            let remaining = remaining_upto(segments@, kept, n);
            match receipt {
                Err(error) => receipt_fault(
                    segments@,
                    kept,
                    fingerprint,
                    live_docs,
                    expected,
                ) == Some(error),
                Ok(receipt) => {
                    &&& receipt_fault(segments@, kept, fingerprint, live_docs, expected) is None
                    &&& receipt.live_docs == live_docs
                    &&& receipt.segments == n
                    &&& receipt.retained.deep_view() == retained_upto(
                        segments@,
                        kept,
                        fingerprint,
                        n,
                    )
                    &&& receipt.remainder.live_docs == live_total(remaining)
                    &&& receipt.remainder.max_doc == doc_total(remaining)
                    &&& receipt.remainder.segments == remaining.len()
                    &&& receipt.remainder.sha256.deep_view() == fingerprint_if(
                        fingerprint,
                        all_hashes(remaining),
                    )
                    &&& receipt.sha256.deep_view() == fingerprint_if(
                        fingerprint,
                        all_hashes(segments@),
                    )
                },
            }
        }),
{
    let ghost kept = retained.deep_view();
    let mut partitions: TextMap<Partition> = SortedMap::new();
    let mut every: Vec<Vec<u8>> = Vec::new();
    let mut others: Vec<Vec<u8>> = Vec::new();
    let mut remainder_live: u64 = 0;
    let mut remainder_max: u64 = 0;
    let mut remainder_segments: usize = 0;
    let mut i: usize = 0;
    proof {
        assert(segments@.take(0) =~= Seq::empty());
        assert(every.deep_view() =~= Seq::empty());
        assert(others.deep_view() =~= Seq::empty());
    }
    while i < segments.len()
        invariant
            i <= segments@.len(),
            segments@.len() <= u32::MAX,
            kept == retained.deep_view(),
            first_fault(segments@, kept, fingerprint, i as int) is None,
            partitions.deep_view() == retained_upto(segments@, kept, fingerprint, i as int),
            ({
                let remaining = remaining_upto(segments@, kept, i as int);
                &&& remainder_live == live_total(remaining)
                &&& remainder_max == doc_total(remaining)
                &&& remainder_segments == remaining.len()
                &&& fingerprint ==> others.deep_view() == all_hashes(remaining)
            }),
            fingerprint ==> every.deep_view() == all_hashes(segments@.take(i as int)),
            remainder_live <= i * u32::MAX,
            remainder_max <= i * u32::MAX,
            remainder_segments <= i,
        decreases segments@.len() - i,
    {
        let segment = &segments[i];
        let keep = retained.contains(&segment.id);
        let ghost remaining = remaining_upto(segments@, kept, i as int);
        if keep != (segment.max_doc >= RETAINED_MIN_DOCS) {
            proof {
                lemma_fault_stays(segments@, kept, fingerprint, i + 1, segments@.len() as int);
            }
            return Err(ReceiptError::PartitionChanged);
        }
        if fingerprint {
            if segment.hashes.len() as u64 != segment.live_docs as u64 {
                proof {
                    lemma_fault_stays(segments@, kept, fingerprint, i + 1, segments@.len() as int);
                }
                return Err(ReceiptError::HashCount);
            }
            copy_hashes(&mut every, &segment.hashes);
            assert(segments@.take(i + 1).drop_last() =~= segments@.take(i as int));
        }
        if keep {
            let mut hashes: Vec<Vec<u8>> = Vec::new();
            assert(hashes.deep_view() =~= Seq::empty());
            if fingerprint {
                copy_hashes(&mut hashes, &segment.hashes);
                assert(hashes.deep_view() =~= segment.hashes.deep_view());
            }
            partitions.insert(
                segment.id.duplicate(),
                Partition {
                    live_docs: segment.live_docs,
                    max_doc: segment.max_doc,
                    sha256: hash_if(fingerprint, &mut hashes),
                },
            );
        } else {
            proof {
                let longer = remaining.push(segments@[i as int]);
                assert(longer.drop_last() =~= remaining);
                assert(longer.last() == segments@[i as int]);
            }
            remainder_live += segment.live_docs as u64;
            remainder_max += segment.max_doc as u64;
            remainder_segments += 1;
            if fingerprint {
                copy_hashes(&mut others, &segment.hashes);
            }
        }
        i += 1;
    }
    assert(segments@.take(i as int) =~= segments@);
    let names = partitions.key_list();
    let found = SortedSet::from_list(&names);
    if !found.same(retained) {
        return Err(ReceiptError::RetainedMissing);
    }
    if live_docs != expected {
        return Err(ReceiptError::LiveDocs);
    }
    let remainder_hash = hash_if(fingerprint, &mut others);
    let hash = hash_if(fingerprint, &mut every);
    Ok(
        Receipt {
            live_docs,
            segments: segments.len(),
            retained: partitions,
            remainder: Remainder {
                live_docs: remainder_live,
                max_doc: remainder_max,
                segments: remainder_segments,
                sha256: remainder_hash,
            },
            sha256: hash,
        },
    )
}

proof fn lemma_fault_stays(
    segments: Seq<Segment>,
    retained: Set<Seq<char>>,
    fingerprint: bool,
    i: int,
    n: int,
)
    requires
        0 <= i <= n,
        first_fault(segments, retained, fingerprint, i) is Some,
    ensures
        first_fault(segments, retained, fingerprint, n) == first_fault(
            segments,
            retained,
            fingerprint,
            i,
        ),
    decreases n - i,
{
    if i < n {
        lemma_fault_stays(segments, retained, fingerprint, i, n - 1);
    }
}

/// The positions of the segments to merge: those that are not retained. `None` where there are
/// none.
pub fn merge_positions(ids: &Vec<String>, retained: &TextSet) -> (positions: Option<Vec<usize>>)
    ensures
        ({
            let remaining = positions_outside(
                ids.deep_view(),
                retained.deep_view(),
                ids@.len() as int,
            );
            match positions {
                Some(positions) => remaining.len() > 0 && positions@ == remaining,
                None => remaining.len() == 0,
            }
        }),
{
    let ghost models = ids.deep_view();
    let mut positions: Vec<usize> = Vec::new();
    let mut i: usize = 0;
    while i < ids.len()
        invariant
            i <= ids@.len(),
            models == ids.deep_view(),
            positions@ == positions_outside(models, retained.deep_view(), i as int),
        decreases ids@.len() - i,
    {
        assert(models[i as int] == ids@[i as int].deep_view());
        if !retained.contains(&ids[i]) {
            positions.push(i);
        }
        i += 1;
    }
    if positions.len() == 0 {
        None
    } else {
        Some(positions)
    }
}

/// The positions among the first `n` ids that are not retained.
pub open spec fn positions_outside(
    ids: Seq<Seq<char>>,
    retained: Set<Seq<char>>,
    n: int,
) -> Seq<usize>
    decreases n,
{
    if n <= 0 {
        Seq::empty()
    } else if retained.contains(ids[n - 1]) {
        positions_outside(ids, retained, n - 1)
    } else {
        positions_outside(ids, retained, n - 1).push((n - 1) as usize)
    }
}

/// A merge left one segment beside the retained ones, which are as they were, with the same live
/// documents and no deleted one.
pub open spec fn merged(
    segments: usize,
    retained_before: Map<Seq<char>, PartitionModel>,
    retained_after: Map<Seq<char>, PartitionModel>,
    before: Remainder,
    after: Remainder,
) -> bool {
    &&& segments == RETAINED_SEGMENTS + 1
    &&& retained_before == retained_after
    &&& before.live_docs == after.live_docs
    &&& after.live_docs == after.max_doc
}

/// Whether a merge did what it should: one segment is left beside the retained ones, these are
/// as they were, and the merged one holds the same live documents and no deleted one.
pub fn merge_succeeded(before: &Receipt, after: &Receipt) -> (result: bool)
    ensures
        result == merged(
            after.segments,
            before.retained.deep_view(),
            after.retained.deep_view(),
            before.remainder,
            after.remainder,
        ),
        result == ({
            &&& after.segments == RETAINED_SEGMENTS + 1
            &&& before.retained.deep_view() == after.retained.deep_view()
            &&& before.remainder.live_docs == after.remainder.live_docs
            &&& after.remainder.live_docs == after.remainder.max_doc
        }),
{
    after.segments == RETAINED_SEGMENTS + 1 && before.retained.same(&after.retained)
        && before.remainder.live_docs == after.remainder.live_docs && after.remainder.live_docs
        == after.remainder.max_doc
}

/// A merge takes exactly the segments that are not retained, each once and in their order.
pub proof fn law_all_other_segments_are_merged(
    ids: Seq<Seq<char>>,
    retained: Set<Seq<char>>,
    n: int,
    p: usize,
)
    requires
        0 <= n <= ids.len() <= usize::MAX,
    ensures
        ({
            let positions = positions_outside(ids, retained, n);
            &&& positions.contains(p) <==> p < n && !retained.contains(ids[p as int])
            &&& forall|i: int, j: int|
                0 <= i < j < positions.len() ==> #[trigger] positions[i] < #[trigger] positions[j]
            &&& forall|i: int| 0 <= i < positions.len() ==> #[trigger] positions[i] < n
        }),
    decreases n,
{
    if n > 0 {
        law_all_other_segments_are_merged(ids, retained, n - 1, p);
        let rest = positions_outside(ids, retained, n - 1);
        let positions = positions_outside(ids, retained, n);
        if !retained.contains(ids[n - 1]) {
            assert(positions[rest.len() as int] == (n - 1) as usize);
            if rest.contains(p) {
                let i = choose|i: int| 0 <= i < rest.len() && rest[i] == p;
                assert(positions[i] == p);
            }
            if positions.contains(p) && p != (n - 1) as usize {
                let i = choose|i: int| 0 <= i < positions.len() && positions[i] == p;
                assert(rest[i] == p);
            }
        }
    }
}

/// A merge succeeded exactly if four segments are left, three of them untouched, and the merged
/// one holds as many live documents as before and no other.
pub proof fn law_merges_lose_nothing(
    segments: usize,
    retained_before: Map<Seq<char>, PartitionModel>,
    retained_after: Map<Seq<char>, PartitionModel>,
    before: Remainder,
    after: Remainder,
)
    ensures
        merged(segments, retained_before, retained_after, before, after) <==> segments == 4
            && retained_before == retained_after && before.live_docs == after.live_docs
            && after.max_doc == before.live_docs,
{
}

/// A segment is at fault exactly if it is retained and has less than a hundred thousand
/// documents, or is not and has as many, or if fingerprints are asked for and it has not one
/// hash for each live document.
pub proof fn law_segments_keep_their_side(
    segment: Segment,
    retained: Set<Seq<char>>,
    fingerprint: bool,
)
    ensures
        ({
            let fault = segment_fault(segment, retained, fingerprint);
            let kept = retained.contains(segment.id@);
            &&& kept && segment.max_doc < 100_000 || !kept && segment.max_doc >= 100_000 <==> fault
                == Some(ReceiptError::PartitionChanged)
            &&& fault == Some(ReceiptError::HashCount) ==> fingerprint && segment.hashes@.len()
                != segment.live_docs
            &&& fault is None ==> (fingerprint ==> segment.hashes@.len() == segment.live_docs)
            &&& !fingerprint ==> fault != Some(ReceiptError::HashCount)
        }),
{
}

/// A receipt fails on the first segment at fault, and on none where none is.
pub proof fn law_the_first_fault_counts(
    segments: Seq<Segment>,
    retained: Set<Seq<char>>,
    fingerprint: bool,
    n: int,
    i: int,
)
    requires
        0 <= n <= segments.len(),
    ensures
        ({
            let fault = first_fault(segments, retained, fingerprint, n);
            &&& (0 <= i < n && segment_fault(segments[i], retained, fingerprint) is Some && (forall|
                j: int,
            |
                0 <= j < i ==> segment_fault(#[trigger] segments[j], retained, fingerprint) is None))
                ==> fault == segment_fault(segments[i], retained, fingerprint)
            &&& (forall|j: int|
                0 <= j < n ==> segment_fault(#[trigger] segments[j], retained, fingerprint) is None)
                ==> fault is None
        }),
    decreases n,
{
    if n > 0 {
        law_the_first_fault_counts(segments, retained, fingerprint, n - 1, i);
        if forall|j: int|
            0 <= j < n - 1 ==> segment_fault(#[trigger] segments[j], retained, fingerprint) is None {
            assert(first_fault(segments, retained, fingerprint, n - 1) is None);
        }
    }
}

/// What remains are the segments that are not retained, in their order.
pub proof fn law_the_rest_remains(segments: Seq<Segment>, retained: Set<Seq<char>>, n: int)
    requires
        0 <= n <= segments.len(),
    ensures
        remaining_upto(segments, retained, n) == segments.take(n).filter(
            |segment: Segment| !retained.contains(segment.id@),
        ),
    decreases n,
{
    reveal(Seq::filter);
    if n > 0 {
        law_the_rest_remains(segments, retained, n - 1);
        assert(segments.take(n).drop_last() =~= segments.take(n - 1));
        assert(segments.take(n).last() == segments[n - 1]);
    } else {
        assert(segments.take(0) =~= Seq::empty());
    }
}

/// Totals and hashes of segments are those of their parts together, and of one segment its own.
pub proof fn law_segments_are_summed_up(left: Seq<Segment>, right: Seq<Segment>, one: Segment)
    ensures
        live_total(left + right) == live_total(left) + live_total(right),
        doc_total(left + right) == doc_total(left) + doc_total(right),
        all_hashes(left + right) == all_hashes(left) + all_hashes(right),
        live_total(seq![one]) == one.live_docs,
        doc_total(seq![one]) == one.max_doc,
        all_hashes(seq![one]) == one.hashes.deep_view(),
    decreases right.len(),
{
    let empty = Seq::<Segment>::empty();
    reveal_with_fuel(live_total, 2);
    reveal_with_fuel(doc_total, 2);
    reveal_with_fuel(all_hashes, 2);
    assert(seq![one].drop_last() =~= empty);
    assert(seq![one].last() == one);
    assert(all_hashes(seq![one]) =~= one.hashes.deep_view());
    if right.len() > 0 {
        law_segments_are_summed_up(left, right.drop_last(), one);
        assert((left + right).drop_last() =~= left + right.drop_last());
        assert((left + right).last() == right.last());
        assert(all_hashes(left + right) =~= all_hashes(left) + all_hashes(right));
    } else {
        assert(left + right =~= left);
        assert(all_hashes(left) + all_hashes(right) =~= all_hashes(left));
    }
}

proof fn lemma_retained(
    segments: Seq<Segment>,
    retained: Set<Seq<char>>,
    fingerprint: bool,
    n: int,
    i: int,
)
    requires
        0 <= i < n <= segments.len(),
        retained.contains(segments[i].id@),
        forall|j: int| i < j < n ==> (#[trigger] segments[j]).id@ != segments[i].id@,
    ensures
        ({
            let found = retained_upto(segments, retained, fingerprint, n);
            let segment = segments[i];
            &&& found.contains_key(segment.id@)
            &&& found[segment.id@].live_docs == segment.live_docs
            &&& found[segment.id@].max_doc == segment.max_doc
            &&& found[segment.id@].sha256 == fingerprint_if(fingerprint, segment.hashes.deep_view())
        }),
    decreases n,
{
    if i < n - 1 {
        lemma_retained(segments, retained, fingerprint, n - 1, i);
        assert(segments[n - 1].id@ != segments[i].id@);
    }
}

proof fn lemma_not_retained(
    segments: Seq<Segment>,
    retained: Set<Seq<char>>,
    fingerprint: bool,
    n: int,
    id: Seq<char>,
)
    requires
        0 <= n <= segments.len(),
        !retained.contains(id) || forall|j: int| 0 <= j < n ==> (#[trigger] segments[j]).id@ != id,
    ensures
        !retained_upto(segments, retained, fingerprint, n).contains_key(id),
    decreases n,
{
    if n > 0 {
        lemma_not_retained(segments, retained, fingerprint, n - 1, id);
    }
}

/// A retained segment stands in the receipt with its documents, the last one of an id where
/// there are several, and with the fingerprint of its own hashes where fingerprints are asked
/// for. No other id stands there. The receipt is given exactly if no segment is at fault, every
/// retained id has a segment, and the live documents are as many as expected.
pub proof fn law_receipts_tell_the_retained_segments(
    segments: Seq<Segment>,
    retained: Set<Seq<char>>,
    fingerprint: bool,
    live_docs: u64,
    expected: u64,
    i: int,
    id: Seq<char>,
)
    ensures
        ({
            let n = segments.len() as int;
            let found = retained_upto(segments, retained, fingerprint, n);
            let fault = receipt_fault(segments, retained, fingerprint, live_docs, expected);
            &&& (0 <= i < n && retained.contains(segments[i].id@) && forall|j: int|
                i < j < n ==> (#[trigger] segments[j]).id@ != segments[i].id@) ==> {
                let part = found[segments[i].id@];
                &&& found.contains_key(segments[i].id@)
                &&& part.live_docs == segments[i].live_docs && part.max_doc == segments[i].max_doc
                &&& fingerprint ==> part.sha256 == Some(
                    fingerprint_of(segments[i].hashes.deep_view()),
                )
                &&& !fingerprint ==> part.sha256 is None
            }
            &&& !retained.contains(id) || (forall|j: int|
                0 <= j < n ==> (#[trigger] segments[j]).id@ != id) ==> !found.contains_key(id)
            &&& (retained.contains(id) && forall|j: int|
                0 <= j < n ==> (#[trigger] segments[j]).id@ != id) ==> fault is Some
            &&& live_docs != expected ==> fault is Some
            &&& first_fault(segments, retained, fingerprint, n) is Some ==> fault == first_fault(
                segments,
                retained,
                fingerprint,
                n,
            )
            &&& fault is None <==> first_fault(segments, retained, fingerprint, n) is None
                && found.dom() == retained && live_docs == expected
        }),
{
    let n = segments.len() as int;
    if 0 <= i < n && retained.contains(segments[i].id@) && forall|j: int|
        i < j < n ==> (#[trigger] segments[j]).id@ != segments[i].id@ {
        lemma_retained(segments, retained, fingerprint, n, i);
    }
    if !retained.contains(id) || forall|j: int| 0 <= j < n ==> (#[trigger] segments[j]).id@ != id {
        lemma_not_retained(segments, retained, fingerprint, n, id);
    }
}

/// A fingerprint covers the name of its form, the number of the hashes, and the hashes in order,
/// so that their order in the segment does not matter.
pub proof fn law_fingerprints_cover_all_hashes(hashes: Seq<Seq<u8>>)
    ensures
        fingerprint_input(hashes) == encode_utf8("memex-stored-doc-multiset-v1"@) + seq![0u8]
            + spec_u64_to_le_bytes(hashes.len() as u64) + concatenated(
            in_rank_order::<Vec<u8>>(hashes),
        ),
        fingerprint_of(hashes) == hex_of(sha256_of(fingerprint_input(hashes))),
{
    assert(fingerprint_prefix() =~= encode_utf8("memex-stored-doc-multiset-v1"@) + seq![0u8]);
}

} // verus!
