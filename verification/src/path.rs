//! Unix paths as byte strings: components, the order they give, joining, names and
//! extensions.

use vstd::prelude::*;
use crate::model::{lemma_bytes_model, Modeled};
use crate::order::{
    bytes_before, bytes_before_from, compare_bytes, rank_before_from, relation_of, Ranked,
    Relation,
};
use crate::sorted::{Key, Ordered};

verus! {

/// The separator of path components.
pub const SLASH: u8 = 47;

/// The byte of `.` and `..`.
pub const DOT: u8 = 46;

/// One component of a path.
pub enum Part<T> {
    Root,
    Current,
    Parent,
    Normal(Seq<T>),
}

/// The component that a segment between separators stands for: empty segments stand for
/// none, and `.` stands for one at the start of a relative path only.
pub open spec fn part_of<T>(segment: Seq<T>, dot: T, leading: bool) -> Seq<Part<T>> {
    if segment.len() == 0 {
        Seq::empty()
    } else if segment == seq![dot] {
        if leading {
            seq![Part::Current]
        } else {
            Seq::empty()
        }
    } else if segment == seq![dot, dot] {
        seq![Part::Parent]
    } else {
        seq![Part::Normal(segment)]
    }
}

/// The components from position `i` on, where `start` is the first position of the segment
/// that `i` belongs to.
pub open spec fn parts_from<T>(path: Seq<T>, slash: T, dot: T, start: int, i: int) -> Seq<Part<T>>
    decreases path.len() - i,
{
    if i >= path.len() {
        part_of(path.subrange(start, path.len() as int), dot, start == 0)
    } else if path[i] == slash {
        part_of(path.subrange(start, i), dot, start == 0) + parts_from(
            path,
            slash,
            dot,
            i + 1,
            i + 1,
        )
    } else {
        parts_from(path, slash, dot, start, i + 1)
    }
}

/// The components of a path.
pub open spec fn parts_of<T>(path: Seq<T>, slash: T, dot: T) -> Seq<Part<T>> {
    (if path.len() > 0 && path[0] == slash {
        seq![Part::Root]
    } else {
        Seq::empty()
    }) + parts_from(path, slash, dot, 0, 0)
}

/// The components of a byte path.
pub open spec fn byte_parts(path: Seq<u8>) -> Seq<Part<u8>> {
    parts_of(path, SLASH, DOT)
}

/// The name that a path ends in, if its last component is one.
pub open spec fn last_name<T>(parts: Seq<Part<T>>) -> Option<Seq<T>> {
    if parts.len() == 0 {
        None
    } else {
        match parts.last() {
            Part::Normal(name) => Some(name),
            _ => None,
        }
    }
}

/// Starts at the root of the file system.
pub open spec fn absolute(path: Seq<u8>) -> bool {
    path.len() > 0 && path[0] == SLASH
}

/// Every component is a name.
pub open spec fn only_names(parts: Seq<Part<u8>>) -> bool {
    forall|i: int| 0 <= i < parts.len() ==> #[trigger] parts[i] is Normal
}

/// `path` followed by `more`: an absolute `more` replaces it, and a separator is put between
/// them where `path` does not end in one.
pub open spec fn joined(path: Seq<u8>, more: Seq<u8>) -> Seq<u8> {
    if absolute(more) {
        more
    } else if path.len() > 0 && path.last() != SLASH {
        path.push(SLASH) + more
    } else {
        path + more
    }
}

/// The bytes by which a component is ordered: the root first, then `.`, then `..`, then names
/// by their bytes.
pub open spec fn part_rank(part: Part<u8>) -> Seq<u8> {
    match part {
        Part::Root => seq![1u8],
        Part::Current => seq![2u8],
        Part::Parent => seq![3u8],
        Part::Normal(name) => seq![4u8] + name,
    }
}

/// The rank of a path with these components.
pub open spec fn parts_rank(parts: Seq<Part<u8>>) -> Seq<Seq<u8>> {
    Seq::new(parts.len(), |i: int| part_rank(parts[i]))
}

spec fn part_tag(part: Part<u8>) -> u8 {
    match part {
        Part::Root => 1u8,
        Part::Current => 2u8,
        Part::Parent => 3u8,
        Part::Normal(_) => 4u8,
    }
}

proof fn lemma_part_rank_injective(left: Part<u8>, right: Part<u8>)
    requires
        part_rank(left) == part_rank(right),
    ensures
        left == right,
{
    assert(part_rank(left)[0] == part_rank(right)[0]);
    assert(part_rank(left)[0] == part_tag(left) && part_rank(right)[0] == part_tag(right));
    match (left, right) {
        (Part::Normal(a), Part::Normal(b)) => {
            assert(a =~= part_rank(left).skip(1));
            assert(b =~= part_rank(right).skip(1));
        },
        _ => {},
    }
}

/// A path, compared by its components and kept in its own spelling.
#[derive(Debug)]
pub struct FilePath {
    bytes: Vec<u8>,
    ranks: Vec<Vec<u8>>,
}

impl DeepView for FilePath {
    type V = Seq<Part<u8>>;

    open spec fn deep_view(&self) -> Seq<Part<u8>> {
        byte_parts(self.spelling())
    }
}

/// Whether two byte strings are equal.
pub fn equal_bytes(left: &[u8], right: &[u8]) -> (equal: bool)
    ensures
        equal == (left@ == right@),
{
    match compare_bytes(left, right) {
        Relation::Same => true,
        _ => false,
    }
}

/// A copy of a byte string.
pub fn copy_bytes(bytes: &[u8]) -> (copy: Vec<u8>)
    ensures
        copy@ == bytes@,
{
    let mut copy: Vec<u8> = Vec::new();
    copy.extend_from_slice(bytes);
    assert(copy@ =~= bytes@);
    copy
}

/// A copy of the bytes from `start` to `end`.
pub fn copy_range(bytes: &[u8], start: usize, end: usize) -> (copy: Vec<u8>)
    requires
        start <= end <= bytes@.len(),
    ensures
        copy@ == bytes@.subrange(start as int, end as int),
{
    let mut copy: Vec<u8> = Vec::new();
    let mut i: usize = start;
    while i < end
        invariant
            start <= i <= end <= bytes@.len(),
            copy@ == bytes@.subrange(start as int, i as int),
        decreases end - i,
    {
        copy.push(bytes[i]);
        assert(copy@ =~= bytes@.subrange(start as int, i + 1));
        i += 1;
    }
    copy
}

/// Appends the rank of the component that a segment stands for.
fn push_rank(ranks: &mut Vec<Vec<u8>>, segment: &Vec<u8>, leading: bool)
    ensures
        final(ranks).deep_view() == old(ranks).deep_view() + parts_rank(
            part_of(segment@, DOT, leading),
        ),
{
    broadcast use lemma_bytes_model;

    let ghost before = ranks.deep_view();
    let ghost parts = part_of(segment@, DOT, leading);
    if segment.len() == 0 {
        assert(ranks.deep_view() =~= before + parts_rank(parts));
    } else if segment.len() == 1 && segment[0] == DOT {
        assert(segment@ =~= seq![DOT]);
        if leading {
            let mut rank: Vec<u8> = Vec::new();
            rank.push(2);
            assert(rank@ =~= part_rank(Part::Current));
            ranks.push(rank);
            assert(ranks.deep_view() =~= before + parts_rank(parts));
        } else {
            assert(ranks.deep_view() =~= before + parts_rank(parts));
        }
    } else if segment.len() == 2 && segment[0] == DOT && segment[1] == DOT {
        assert(segment@ =~= seq![DOT, DOT]);
        let mut rank: Vec<u8> = Vec::new();
        rank.push(3);
        assert(rank@ =~= part_rank(Part::Parent));
        ranks.push(rank);
        assert(ranks.deep_view() =~= before + parts_rank(parts));
    } else {
        let mut rank: Vec<u8> = Vec::new();
        rank.push(4);
        rank.extend_from_slice(segment.as_slice());
        assert(segment@ != seq![DOT]) by {
            assert(seq![DOT].len() == 1 && seq![DOT][0] == DOT);
        }
        assert(segment@ != seq![DOT, DOT]) by {
            assert(seq![DOT, DOT].len() == 2);
            assert(seq![DOT, DOT][0] == DOT && seq![DOT, DOT][1] == DOT);
        }
        assert(rank@ =~= part_rank(Part::Normal(segment@)));
        ranks.push(rank);
        assert(ranks.deep_view() =~= before + parts_rank(parts));
    }
}

fn ranks_of(path: &Vec<u8>) -> (ranks: Vec<Vec<u8>>)
    ensures
        ranks.deep_view() == parts_rank(byte_parts(path@)),
{
    broadcast use lemma_bytes_model;

    let mut ranks: Vec<Vec<u8>> = Vec::new();
    assert(ranks.deep_view() =~= Seq::<Seq<u8>>::empty());
    if path.len() > 0 && path[0] == SLASH {
        let mut rank: Vec<u8> = Vec::new();
        rank.push(1);
        assert(rank@ =~= part_rank(Part::Root));
        ranks.push(rank);
        assert(ranks.deep_view() =~= parts_rank(seq![Part::Root]));
    } else {
        assert(ranks.deep_view() =~= parts_rank(Seq::<Part<u8>>::empty()));
    }
    let mut segment: Vec<u8> = Vec::new();
    let mut start: usize = 0;
    let mut i: usize = 0;
    let ghost whole = parts_rank(byte_parts(path@));
    proof {
        lemma_ranks_concat(
            if path@.len() > 0 && path@[0] == SLASH {
                seq![Part::Root]
            } else {
                Seq::empty()
            },
            parts_from(path@, SLASH, DOT, 0, 0),
        );
        assert(segment@ =~= path@.subrange(0, 0));
    }
    while i < path.len()
        invariant
            start <= i <= path@.len(),
            segment@ == path@.subrange(start as int, i as int),
            whole == ranks.deep_view() + parts_rank(
                parts_from(path@, SLASH, DOT, start as int, i as int),
            ),
        decreases path@.len() - i,
    {
        if path[i] == SLASH {
            proof {
                lemma_ranks_concat(
                    part_of(segment@, DOT, start == 0),
                    parts_from(path@, SLASH, DOT, i + 1, i + 1),
                );
            }
            let ghost before = ranks.deep_view();
            push_rank(&mut ranks, &segment, start == 0);
            proof {
                assert(whole =~= ranks.deep_view() + parts_rank(
                    parts_from(path@, SLASH, DOT, i + 1, i + 1),
                ));
            }
            i += 1;
            start = i;
            segment = Vec::new();
            assert(segment@ =~= path@.subrange(start as int, i as int));
        } else {
            segment.push(path[i]);
            assert(segment@ =~= path@.subrange(start as int, i + 1));
            i += 1;
        }
    }
    push_rank(&mut ranks, &segment, start == 0);
    ranks
}

proof fn lemma_ranks_concat(left: Seq<Part<u8>>, right: Seq<Part<u8>>)
    ensures
        parts_rank(left + right) == parts_rank(left) + parts_rank(right),
{
    assert(parts_rank(left + right) =~= parts_rank(left) + parts_rank(right));
}

impl FilePath {
    /// The bytes of the path as it was written.
    pub closed spec fn spelling(&self) -> Seq<u8> {
        self.bytes@
    }

    #[verifier::type_invariant]
    spec fn well_formed(&self) -> bool {
        self.ranks.deep_view() == parts_rank(byte_parts(self.bytes@))
    }

    /// The path with this spelling.
    pub fn new(bytes: Vec<u8>) -> (path: Self)
        ensures
            path.spelling() == bytes@,
    {
        let ranks = ranks_of(&bytes);
        FilePath { bytes, ranks }
    }

    /// The bytes of the path as it was written.
    pub fn bytes(&self) -> (bytes: &Vec<u8>)
        ensures
            bytes@ == self.spelling(),
    {
        &self.bytes
    }

    /// The name that the path ends in.
    pub fn file_name(&self) -> (name: Option<Vec<u8>>)
        ensures
            match name {
                Some(bytes) => last_name(self.deep_view()) == Some(bytes@),
                None => last_name(self.deep_view()) is None,
            },
    {
        broadcast use lemma_bytes_model;

        proof {
            use_type_invariant(&*self);
        }
        let ghost parts = byte_parts(self.bytes@);
        assert(self.ranks@.len() == self.ranks.deep_view().len());
        if self.ranks.len() == 0 {
            return None;
        }
        let rank = &self.ranks[self.ranks.len() - 1];
        assert(rank@ == self.ranks.deep_view()[parts.len() - 1]);
        assert(rank@ == part_rank(parts.last()));
        if rank[0] == 4 {
            let name = copy_range(rank.as_slice(), 1, rank.len());
            assert(parts.last() is Normal);
            assert(name@ =~= parts.last()->0);
            Some(name)
        } else {
            None
        }
    }

    /// Whether every component is a name.
    pub fn only_names(&self) -> (result: bool)
        ensures
            result == only_names(self.deep_view()),
    {
        broadcast use lemma_bytes_model;

        proof {
            use_type_invariant(&*self);
        }
        let ghost parts = byte_parts(self.bytes@);
        let mut i: usize = 0;
        assert(self.ranks@.len() == self.ranks.deep_view().len());
        while i < self.ranks.len()
            invariant
                i <= self.ranks@.len(),
                self.ranks@.len() == parts.len(),
                parts == self.deep_view(),
                self.ranks.deep_view() == parts_rank(parts),
                forall|k: int| 0 <= k < i ==> #[trigger] parts[k] is Normal,
            decreases self.ranks@.len() - i,
        {
            let rank = &self.ranks[i];
            proof {
                lemma_bytes_model(*rank);
                assert(rank@ == self.ranks.deep_view()[i as int]);
                assert(rank@ == part_rank(parts[i as int]));
                assert(rank@[0] == part_rank(parts[i as int])[0]);
            }
            if rank[0] != 4 {
                return false;
            }
            i += 1;
        }
        true
    }

    /// A copy in the same spelling.
    pub fn copy(&self) -> (copy: Self)
        ensures
            copy.spelling() == self.spelling(),
    {
        FilePath::new(copy_bytes(self.bytes.as_slice()))
    }

    /// Whether the path starts at the root of the file system.
    pub fn is_absolute(&self) -> (result: bool)
        ensures
            result == absolute(self.spelling()),
    {
        self.bytes.len() > 0 && self.bytes[0] == SLASH
    }
}

impl Modeled for FilePath {
    fn duplicate(&self) -> (copy: Self) {
        self.copy()
    }

    fn same(&self, other: &Self) -> (equal: bool) {
        proof {
            self.lemma_rank();
            other.lemma_rank();
            if self.rank() == other.rank() {
                FilePath::lemma_injective(self.deep_view(), other.deep_view());
            }
        }
        match self.relation(other) {
            Relation::Same => true,
            _ => false,
        }
    }
}

impl Ranked for FilePath {
    open spec fn rank(&self) -> Seq<Seq<u8>> {
        parts_rank(self.deep_view())
    }

    fn relation(&self, other: &Self) -> (relation: Relation) {
        broadcast use lemma_bytes_model;

        proof {
            use_type_invariant(&*self);
            use_type_invariant(&*other);
        }
        let left = &self.ranks;
        let right = &other.ranks;
        let ghost a = self.rank();
        let ghost b = other.rank();
        assert(a == left.deep_view() && b == right.deep_view());
        let mut i: usize = 0;
        while i < left.len() && i < right.len()
            invariant
                a == left.deep_view(),
                b == right.deep_view(),
                a == self.rank(),
                b == other.rank(),
                i <= a.len(),
                i <= b.len(),
                forall|k: int| 0 <= k < i ==> a[k] == b[k],
                relation_of(a, b) == (if a == b {
                    Relation::Same
                } else if rank_before_from(a, b, i as int) {
                    Relation::Before
                } else {
                    Relation::After
                }),
            decreases a.len() - i,
        {
            proof {
                lemma_bytes_model(left@[i as int]);
                lemma_bytes_model(right@[i as int]);
                assert(a[i as int] == left@[i as int]@);
                assert(b[i as int] == right@[i as int]@);
            }
            match compare_bytes(left[i].as_slice(), right[i].as_slice()) {
                Relation::Same => {},
                different => {
                    assert(a != b);
                    return different;
                },
            }
            i += 1;
        }
        if left.len() == right.len() {
            assert(a =~= b);
            Relation::Same
        } else if i == left.len() {
            Relation::Before
        } else {
            Relation::After
        }
    }
}

impl Ordered for FilePath {
    open spec fn rank_of(model: Seq<Part<u8>>) -> Seq<Seq<u8>> {
        parts_rank(model)
    }
}

impl Key for FilePath {
    proof fn lemma_rank(&self) {
    }

    proof fn lemma_injective(left: Seq<Part<u8>>, right: Seq<Part<u8>>) {
        assert(parts_rank(left).len() == left.len());
        assert(parts_rank(right).len() == right.len());
        assert forall|i: int| 0 <= i < left.len() implies left[i] == right[i] by {
            assert(parts_rank(left)[i] == parts_rank(right)[i]);
            lemma_part_rank_injective(left[i], right[i]);
        }
        assert(left =~= right);
    }
}

/// Puts `more` behind `path`.
pub fn join(path: &[u8], more: &[u8]) -> (result: Vec<u8>)
    ensures
        result@ == joined(path@, more@),
{
    if more.len() > 0 && more[0] == SLASH {
        return copy_bytes(more);
    }
    let mut result = copy_bytes(path);
    if result.len() > 0 && result[result.len() - 1] != SLASH {
        result.push(SLASH);
    }
    result.extend_from_slice(more);
    assert(result@ =~= joined(path@, more@));
    result
}

/// The last ending of a name: `.jsonl` behind at least one other byte.
pub open spec fn has_jsonl_extension(name: Seq<u8>) -> bool {
    name.len() > 6 && name.subrange(name.len() - 6, name.len() as int) == seq![
        46u8,
        106u8,
        115u8,
        111u8,
        110u8,
        108u8,
    ]
}

/// Whether the extension of the path is `jsonl`.
pub fn is_jsonl(path: &FilePath) -> (result: bool)
    ensures
        result == (last_name(path.deep_view()) matches Some(name) && has_jsonl_extension(name)),
{
    match path.file_name() {
        None => false,
        Some(name) => {
            let n = name.len();
            if n <= 6 {
                return false;
            }
            let result = name[n - 6] == 46 && name[n - 5] == 106 && name[n - 4] == 115 && name[n - 3]
                == 111 && name[n - 2] == 110 && name[n - 1] == 108;
            proof {
                let ending = name@.subrange(n - 6, n as int);
                let wanted = seq![46u8, 106u8, 115u8, 111u8, 110u8, 108u8];
                assert(ending[0] == name@[n - 6]);
                assert(ending[1] == name@[n - 5]);
                assert(ending[2] == name@[n - 4]);
                assert(ending[3] == name@[n - 3]);
                assert(ending[4] == name@[n - 2]);
                assert(ending[5] == name@[n - 1]);
                if result {
                    assert(ending =~= wanted);
                } else {
                    assert(wanted[0] == 46u8 && wanted[1] == 106u8 && wanted[2] == 115u8
                        && wanted[3] == 111u8 && wanted[4] == 110u8 && wanted[5] == 108u8);
                    assert(ending != wanted);
                }
            }
            result
        },
    }
}

/// A path without a further slash is one segment.
pub proof fn lemma_one_segment<T>(path: Seq<T>, slash: T, dot: T, start: int, i: int)
    requires
        0 <= start <= i <= path.len(),
        forall|k: int| i <= k < path.len() ==> path[k] != slash,
    ensures
        parts_from(path, slash, dot, start, i) == part_of(
            path.subrange(start, path.len() as int),
            dot,
            start == 0,
        ),
    decreases path.len() - i,
{
    if i < path.len() {
        lemma_one_segment(path, slash, dot, start, i + 1);
    }
}

/// A segment behind a slash adds its part.
pub proof fn lemma_segment_behind<T>(
    path: Seq<T>,
    segment: Seq<T>,
    slash: T,
    dot: T,
    start: int,
    i: int,
)
    requires
        0 <= start <= i <= path.len(),
        forall|k: int| 0 <= k < segment.len() ==> segment[k] != slash,
    ensures
        parts_from(path.push(slash) + segment, slash, dot, start, i) == parts_from(
            path,
            slash,
            dot,
            start,
            i,
        ) + part_of(segment, dot, false),
    decreases path.len() - i,
{
    let longer = path.push(slash) + segment;
    if i >= path.len() {
        assert(longer[i] == slash);
        assert(longer.subrange(start, i) =~= path.subrange(start, path.len() as int));
        lemma_one_segment(longer, slash, dot, i + 1, i + 1);
        assert(longer.subrange(i + 1, longer.len() as int) =~= segment);
    } else {
        assert(longer[i] == path[i]);
        if path[i] == slash {
            lemma_segment_behind(path, segment, slash, dot, i + 1, i + 1);
            assert(longer.subrange(start, i) =~= path.subrange(start, i));
            let first = part_of(path.subrange(start, i), dot, start == 0);
            let rest = parts_from(path, slash, dot, i + 1, i + 1);
            assert(first + (rest + part_of(segment, dot, false)) =~= (first + rest) + part_of(
                segment,
                dot,
                false,
            ));
        } else {
            lemma_segment_behind(path, segment, slash, dot, start, i + 1);
        }
    }
}

/// How a path is taken apart, in bytes. A name alone is one part, a dot alone is the current
/// directory and a slash alone the root. A further segment behind a slash adds its part: a name,
/// or the parent for two dots. Nothing at all, or one dot, adds none.
pub proof fn law_paths_are_taken_apart(path: Seq<u8>, segment: Seq<u8>)
    requires
        forall|k: int| 0 <= k < segment.len() ==> segment[k] != 47,
    ensures
        segment.len() > 0 && segment != seq![46u8] && segment != seq![46u8, 46u8] ==> byte_parts(
            segment,
        ) == seq![Part::Normal(segment)],
        byte_parts(seq![46u8]) == seq![Part::<u8>::Current],
        byte_parts(seq![46u8, 46u8]) == seq![Part::<u8>::Parent],
        byte_parts(seq![47u8]) == seq![Part::<u8>::Root],
        byte_parts(Seq::<u8>::empty()) == Seq::<Part<u8>>::empty(),
        path.len() > 0 ==> {
            let longer = byte_parts(path.push(47) + segment);
            &&& segment.len() > 0 && segment != seq![46u8] && segment != seq![46u8, 46u8]
                ==> longer == byte_parts(path).push(Part::Normal(segment))
            &&& segment == seq![46u8, 46u8] ==> longer == byte_parts(path).push(Part::Parent)
            &&& segment.len() == 0 || segment == seq![46u8] ==> longer == byte_parts(path)
        },
{
    lemma_one_segment(segment, SLASH, DOT, 0, 0);
    assert(segment.subrange(0, segment.len() as int) =~= segment);
    if segment.len() > 0 {
        assert(segment[0] != 47);
    }
    let dot = seq![46u8];
    lemma_one_segment(dot, SLASH, DOT, 0, 0);
    assert(dot.subrange(0, 1) =~= dot);
    assert(byte_parts(dot) =~= seq![Part::<u8>::Current]);
    let dots = seq![46u8, 46u8];
    lemma_one_segment(dots, SLASH, DOT, 0, 0);
    assert(dots.subrange(0, 2) =~= dots);
    assert(dots != dot) by {
        assert(dots.len() == 2 && dot.len() == 1);
    }
    assert(byte_parts(dots) =~= seq![Part::<u8>::Parent]);
    let root = seq![47u8];
    let empty = Seq::<u8>::empty();
    lemma_one_segment(root, SLASH, DOT, 1, 1);
    assert(root.subrange(1, 1) =~= empty);
    assert(root.subrange(0, 0) =~= empty);
    assert(byte_parts(root) =~= seq![Part::<u8>::Root]);
    lemma_one_segment(empty, SLASH, DOT, 0, 0);
    assert(empty.subrange(0, 0) =~= empty);
    assert(byte_parts(empty) =~= Seq::<Part<u8>>::empty());
    if segment.len() > 0 && segment != dot && segment != dots {
        assert(byte_parts(segment) =~= seq![Part::Normal(segment)]);
    }
    if path.len() > 0 {
        let longer = path.push(47) + segment;
        lemma_segment_behind(path, segment, SLASH, DOT, 0, 0);
        assert(longer[0] == path[0]);
        let before = byte_parts(path);
        assert(byte_parts(longer) =~= before + part_of(segment, DOT, false));
        if segment == dots {
            assert(byte_parts(longer) =~= before.push(Part::Parent));
        } else if segment.len() == 0 || segment == dot {
            assert(byte_parts(longer) =~= before);
        } else {
            assert(byte_parts(longer) =~= before.push(Part::Normal(segment)));
        }
    }
}

/// The name of a path is its last part, where that is a name. A path consists of names only if
/// it leads nowhere else. One that starts with a slash is absolute, and joining an absolute path
/// gives just that, while any other comes behind a slash.
pub proof fn law_names_and_joins(path: Seq<u8>, more: Seq<u8>, parts: Seq<Part<u8>>, name: Seq<u8>)
    ensures
        last_name(parts.push(Part::Normal(name))) == Some(name),
        last_name(parts.push(Part::Parent)) is None && last_name(parts.push(Part::Root)) is None
            && last_name(parts.push(Part::Current)) is None,
        last_name(Seq::<Part<u8>>::empty()) is None,
        only_names(parts.push(Part::Normal(name))) == only_names(parts),
        !only_names(parts.push(Part::Parent)) && !only_names(parts.push(Part::Root)) && !only_names(
            parts.push(Part::Current),
        ),
        only_names(Seq::<Part<u8>>::empty()),
        absolute(more) <==> more.len() > 0 && more[0] == 47,
        more.len() > 0 && more[0] == 47 ==> joined(path, more) == more,
        !absolute(more) && path.len() > 0 && path.last() != 47 ==> joined(path, more) == path.push(
            47,
        ) + more,
        !absolute(more) && (path.len() == 0 || path.last() == 47) ==> joined(path, more) == path
            + more,
{
    let longer = parts.push(Part::Normal(name));
    if only_names(longer) {
        assert forall|i: int| 0 <= i < parts.len() implies #[trigger] parts[i] is Normal by {
            assert(longer[i] == parts[i]);
        }
    }
    assert(parts.push(Part::Parent)[parts.len() as int] is Parent);
    assert(parts.push(Part::Root)[parts.len() as int] is Root);
    assert(parts.push(Part::Current)[parts.len() as int] is Current);
}

/// A name has the extension of transcripts exactly if it ends in it and something stands before.
pub proof fn law_transcripts_have_an_extension(stem: Seq<u8>, name: Seq<u8>)
    ensures
        stem.len() > 0 ==> has_jsonl_extension(
            stem + seq![46u8, 106u8, 115u8, 111u8, 110u8, 108u8],
        ),
        has_jsonl_extension(name) ==> name.len() > 6 && name == name.take(name.len() - 6) + seq![
            46u8,
            106u8,
            115u8,
            111u8,
            110u8,
            108u8,
        ],
{
    let ending = seq![46u8, 106u8, 115u8, 111u8, 110u8, 108u8];
    let whole = stem + ending;
    assert(whole.subrange(whole.len() - 6, whole.len() as int) =~= ending);
    if has_jsonl_extension(name) {
        assert(name =~= name.take(name.len() - 6) + ending);
    }
}

/// Paths are ordered part by part: the root first, then the current directory, then the parent,
/// then names by their bytes.
pub proof fn law_parts_are_ordered(left: Seq<u8>, right: Seq<u8>)
    ensures
        bytes_before(part_rank(Part::Root), part_rank(Part::Current)),
        bytes_before(part_rank(Part::Current), part_rank(Part::Parent)),
        bytes_before(part_rank(Part::Parent), part_rank(Part::Normal(left))),
        bytes_before(part_rank(Part::Normal(left)), part_rank(Part::Normal(right)))
            == bytes_before(left, right),
{
    let a = part_rank(Part::Normal(left));
    let b = part_rank(Part::Normal(right));
    lemma_shifted_before(left, right, 0);
    assert(a[0] == b[0]);
}

proof fn lemma_shifted_before(left: Seq<u8>, right: Seq<u8>, i: int)
    requires
        0 <= i,
    ensures
        bytes_before_from(
            part_rank(Part::Normal(left)),
            part_rank(Part::Normal(right)),
            i + 1,
        ) == bytes_before_from(left, right, i),
    decreases right.len() - i,
{
    let a = part_rank(Part::Normal(left));
    let b = part_rank(Part::Normal(right));
    if i < right.len() && i < left.len() {
        assert(a[i + 1] == left[i] && b[i + 1] == right[i]);
        lemma_shifted_before(left, right, i + 1);
    }
}

} // verus!
