//! The key types of the library: texts, byte strings and pairs of them, in the order that
//! their bytes give.

use vstd::prelude::*;
use vstd::utf8::{encode_utf8, encode_utf8_decode_utf8};
use crate::model::lemma_bytes_model;
use crate::order::{
    bytes_before, compare_bytes, law_the_first_difference_decides,
    law_the_first_other_part_decides, rank_before, rank_before_from, relation_of, Ranked, Relation,
};
use crate::sorted::{Key, Ordered, SortedMap, SortedSet};

verus! {

/// A set of texts.
pub type TextSet = SortedSet<String>;

/// A map from texts.
pub type TextMap<V> = SortedMap<String, V>;

proof fn lemma_single_rank(left: Seq<u8>, right: Seq<u8>)
    ensures
        (seq![left] == seq![right]) == (left == right),
        rank_before(seq![left], seq![right]) == (left != right && crate::order::bytes_before(
            left,
            right,
        )),
{
    assert(seq![left][0] == left && seq![right][0] == right);
    reveal_with_fuel(rank_before_from, 2);
}

proof fn lemma_double_rank(a: Seq<u8>, b: Seq<u8>, c: Seq<u8>, d: Seq<u8>)
    ensures
        (seq![a, b] == seq![c, d]) == (a == c && b == d),
        a != c ==> rank_before(seq![a, b], seq![c, d]) == crate::order::bytes_before(a, c),
        a == c && b != d ==> rank_before(seq![a, b], seq![c, d]) == crate::order::bytes_before(
            b,
            d,
        ),
{
    assert(seq![a, b][0] == a && seq![a, b][1] == b);
    assert(seq![c, d][0] == c && seq![c, d][1] == d);
    reveal_with_fuel(rank_before_from, 3);
}

/// Two texts with the same encoding are the same text.
pub proof fn lemma_text_bytes_injective(left: Seq<char>, right: Seq<char>)
    requires
        encode_utf8(left) == encode_utf8(right),
    ensures
        left == right,
{
    encode_utf8_decode_utf8(left);
    encode_utf8_decode_utf8(right);
}

/// Compares two pairs of byte strings.
pub fn compare_pairs(a: &[u8], b: &[u8], c: &[u8], d: &[u8]) -> (relation: Relation)
    ensures
        relation == relation_of(seq![a@, b@], seq![c@, d@]),
{
    proof {
        lemma_double_rank(a@, b@, c@, d@);
    }
    match compare_bytes(a, c) {
        Relation::Same => compare_bytes(b, d),
        other => other,
    }
}

impl Ranked for String {
    open spec fn rank(&self) -> Seq<Seq<u8>> {
        seq![encode_utf8(self@)]
    }

    fn relation(&self, other: &Self) -> (relation: Relation) {
        proof {
            lemma_single_rank(encode_utf8(self@), encode_utf8(other@));
        }
        compare_bytes(self.as_str().as_bytes(), other.as_str().as_bytes())
    }
}

impl Ordered for String {
    open spec fn rank_of(model: Seq<char>) -> Seq<Seq<u8>> {
        seq![encode_utf8(model)]
    }
}

impl Key for String {
    proof fn lemma_rank(&self) {
    }

    proof fn lemma_injective(left: Seq<char>, right: Seq<char>) {
        lemma_single_rank(encode_utf8(left), encode_utf8(right));
        lemma_text_bytes_injective(left, right);
    }
}

impl Ranked for Vec<u8> {
    open spec fn rank(&self) -> Seq<Seq<u8>> {
        seq![self@]
    }

    fn relation(&self, other: &Self) -> (relation: Relation) {
        proof {
            lemma_single_rank(self@, other@);
        }
        compare_bytes(self.as_slice(), other.as_slice())
    }
}

impl Ordered for Vec<u8> {
    open spec fn rank_of(model: Seq<u8>) -> Seq<Seq<u8>> {
        seq![model]
    }
}

impl Key for Vec<u8> {
    proof fn lemma_rank(&self) {
        lemma_bytes_model(*self);
    }

    proof fn lemma_injective(left: Seq<u8>, right: Seq<u8>) {
        lemma_single_rank(left, right);
    }
}

impl Ranked for (Vec<u8>, Vec<u8>) {
    open spec fn rank(&self) -> Seq<Seq<u8>> {
        seq![self.0@, self.1@]
    }

    fn relation(&self, other: &Self) -> (relation: Relation) {
        compare_pairs(
            self.0.as_slice(),
            self.1.as_slice(),
            other.0.as_slice(),
            other.1.as_slice(),
        )
    }
}

impl Ordered for (Vec<u8>, Vec<u8>) {
    open spec fn rank_of(model: (Seq<u8>, Seq<u8>)) -> Seq<Seq<u8>> {
        seq![model.0, model.1]
    }
}

impl Key for (Vec<u8>, Vec<u8>) {
    proof fn lemma_rank(&self) {
        lemma_bytes_model(self.0);
        lemma_bytes_model(self.1);
    }

    proof fn lemma_injective(left: (Seq<u8>, Seq<u8>), right: (Seq<u8>, Seq<u8>)) {
        lemma_double_rank(left.0, left.1, right.0, right.1);
    }
}

impl Ranked for (String, String) {
    open spec fn rank(&self) -> Seq<Seq<u8>> {
        seq![encode_utf8(self.0@), encode_utf8(self.1@)]
    }

    fn relation(&self, other: &Self) -> (relation: Relation) {
        compare_pairs(
            self.0.as_str().as_bytes(),
            self.1.as_str().as_bytes(),
            other.0.as_str().as_bytes(),
            other.1.as_str().as_bytes(),
        )
    }
}

impl Ordered for (String, String) {
    open spec fn rank_of(model: (Seq<char>, Seq<char>)) -> Seq<Seq<u8>> {
        seq![encode_utf8(model.0), encode_utf8(model.1)]
    }
}

impl Key for (String, String) {
    proof fn lemma_rank(&self) {
    }

    proof fn lemma_injective(left: (Seq<char>, Seq<char>), right: (Seq<char>, Seq<char>)) {
        lemma_double_rank(
            encode_utf8(left.0),
            encode_utf8(left.1),
            encode_utf8(right.0),
            encode_utf8(right.1),
        );
        lemma_text_bytes_injective(left.0, right.0);
        lemma_text_bytes_injective(left.1, right.1);
    }
}

/// Texts are sorted by the bytes of their UTF-8, and pairs of texts by the first and then by the
/// second.
pub proof fn law_texts_are_sorted_by_their_bytes(
    left: Seq<char>,
    right: Seq<char>,
    first: Seq<char>,
    second: Seq<char>,
)
    ensures
        rank_before(String::rank_of(left), String::rank_of(right)) == bytes_before(
            encode_utf8(left),
            encode_utf8(right),
        ),
        encode_utf8(left) != encode_utf8(right) ==> rank_before(
            <(String, String)>::rank_of((left, first)),
            <(String, String)>::rank_of((right, second)),
        ) == bytes_before(encode_utf8(left), encode_utf8(right)),
        rank_before(
            <(String, String)>::rank_of((left, first)),
            <(String, String)>::rank_of((left, second)),
        ) == bytes_before(encode_utf8(first), encode_utf8(second)),
{
    let a = seq![encode_utf8(left)];
    let b = seq![encode_utf8(right)];
    let same = encode_utf8(left);
    law_the_first_difference_decides(same, same, same.len() as int);
    law_the_first_difference_decides(
        encode_utf8(first),
        encode_utf8(first),
        encode_utf8(first).len() as int,
    );
    if a[0] == b[0] {
        assert(a =~= b);
        law_the_first_other_part_decides(a, b, 1);
    } else {
        law_the_first_other_part_decides(a, b, 0);
    }
    let p = seq![encode_utf8(left), encode_utf8(first)];
    let q = seq![encode_utf8(right), encode_utf8(second)];
    let r = seq![encode_utf8(left), encode_utf8(second)];
    if p[0] != q[0] {
        law_the_first_other_part_decides(p, q, 0);
    }
    if p[1] != r[1] {
        law_the_first_other_part_decides(p, r, 1);
    } else {
        assert(p =~= r);
        law_the_first_other_part_decides(p, r, 2);
    }
}

} // verus!
