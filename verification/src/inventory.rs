//! A cached inventory of directory listings: what identifies a directory, when a cached
//! listing may be trusted, and which inventories are admissible.

use vstd::prelude::*;
use crate::model::Modeled;
use crate::order::{has_repeat, Ranked};
use crate::path::{absolute, byte_parts, copy_bytes, equal_bytes, only_names, FilePath, DOT, SLASH};

verus! {

pub const VERSION: u32 = 1;

pub const MAX_DIRECTORIES: usize = 4_096;

pub const MAX_CHILDREN: usize = 65_536;

pub const MAX_PATH_BYTES: usize = 4_096;

pub const MAX_NAME_BYTES: usize = 1_024;

pub const MAX_PROJECTION_BYTES: usize = 65_536;

pub const MAX_TOTAL_BYTES: usize = 16 * 1024 * 1024;

pub const RECENCY_SECONDS: i64 = 1;

/// A sequence of at most `N` elements, as far as it was filled by `push`.
#[derive(Clone, Debug)]
pub struct BoundedVec<T, const N: usize>(pub Vec<T>);

/// A bounded byte string.
pub type Bytes<const N: usize> = BoundedVec<u8, N>;

impl<T, const N: usize> BoundedVec<T, N> {
    /// Whether a sequence that announces this many elements is read at all.
    pub fn admits(announced: Option<usize>) -> (result: bool)
        ensures
            result == !(announced matches Some(size) && size > N),
    {
        match announced {
            Some(size) => size <= N,
            None => true,
        }
    }

    /// Appends an element unless the sequence is full, and says whether it did.
    pub fn push(&mut self, value: T) -> (pushed: bool)
        ensures
            pushed == (old(self).0@.len() != N),
            pushed ==> final(self).0@ == old(self).0@.push(value),
            !pushed ==> final(self).0@ == old(self).0@,
    {
        if self.0.len() == N {
            false
        } else {
            self.0.push(value);
            true
        }
    }
}

/// A point in time, in seconds and nanoseconds since the epoch.
#[derive(Clone, Copy, Debug, PartialEq, Eq, Structural)]
pub struct Timestamp {
    pub seconds: i64,
    pub nanos: u32,
}

/// The earlier time comes first.
pub open spec fn earlier(left: Timestamp, right: Timestamp) -> bool {
    left.seconds < right.seconds || (left.seconds == right.seconds && left.nanos < right.nanos)
}

/// A time is earlier than another; an unknown time is earlier than any known one.
pub open spec fn observed_earlier(left: Option<Timestamp>, right: Option<Timestamp>) -> bool {
    match (left, right) {
        (Some(left), Some(right)) => earlier(left, right),
        (None, Some(_)) => true,
        (_, None) => false,
    }
}

/// Whether `left` is earlier than `right`, an unknown time being the earliest.
pub fn is_observed_earlier(left: Option<Timestamp>, right: Option<Timestamp>) -> (result: bool)
    ensures
        result == observed_earlier(left, right),
{
    match (left, right) {
        (Some(left), Some(right)) => left.is_earlier(right),
        (None, Some(_)) => true,
        (_, None) => false,
    }
}

impl Timestamp {
    /// Not before the epoch, and with less than a second of nanoseconds.
    pub open spec fn is_valid(self) -> bool {
        self.seconds >= 0 && self.nanos < 1_000_000_000
    }

    /// More than a second older than `now`, and with a fraction that shows a fine clock.
    pub open spec fn is_settled(self, now: Timestamp) -> bool {
        self.is_valid() && self.nanos != 0 && now.is_valid() && now.seconds - self.seconds
            > RECENCY_SECONDS
    }

    /// The time that lies `seconds` and `nanos` behind the epoch, if it can be represented.
    pub fn from_elapsed(seconds: u64, nanos: u32) -> (time: Option<Timestamp>)
        ensures
            match time {
                Some(time) => time.seconds == seconds && time.nanos == nanos,
                None => seconds > i64::MAX,
            },
    {
        if seconds > i64::MAX as u64 {
            None
        } else {
            Some(Timestamp { seconds: seconds as i64, nanos })
        }
    }

    /// The time that file metadata gives, if it is a valid one.
    pub fn from_metadata(seconds: i64, nanos: i64) -> (time: Option<Timestamp>)
        ensures
            match time {
                Some(time) => time.seconds == seconds && time.nanos == nanos && time.is_valid(),
                None => seconds < 0 || !(0 <= nanos < 1_000_000_000),
            },
    {
        if nanos < 0 || nanos > u32::MAX as i64 {
            return None;
        }
        let time = Timestamp { seconds, nanos: nanos as u32 };
        if time.valid() {
            Some(time)
        } else {
            None
        }
    }

    /// Whether the time is not before the epoch and has less than a second of nanoseconds.
    pub fn valid(self) -> (result: bool)
        ensures
            result == self.is_valid(),
    {
        self.seconds >= 0 && self.nanos < 1_000_000_000
    }

    /// Whether the time is old and fine enough to rely on.
    pub fn settled(self, now: Timestamp) -> (result: bool)
        ensures
            result == self.is_settled(now),
    {
        self.valid() && self.nanos != 0 && now.valid() && now.seconds - self.seconds
            > RECENCY_SECONDS
    }

    /// Whether this time comes before `other`.
    pub fn is_earlier(self, other: Timestamp) -> (result: bool)
        ensures
            result == earlier(self, other),
    {
        self.seconds < other.seconds || (self.seconds == other.seconds && self.nanos < other.nanos)
    }
}

/// The boot session and the number of mount operations in it.
#[derive(Clone, Copy, Debug, PartialEq, Eq)]
pub struct Epoch {
    pub boot: [u8; 32],
    pub mounts: u32,
}

impl DeepView for Epoch {
    type V = Epoch;

    open spec fn deep_view(&self) -> Epoch {
        *self
    }
}

impl Modeled for Epoch {
    fn duplicate(&self) -> (copy: Self) {
        *self
    }

    fn same(&self, other: &Self) -> (equal: bool) {
        let equal = equal_bytes(self.boot.as_slice(), other.boot.as_slice()) && self.mounts
            == other.mounts;
        proof {
            if equal {
                assert(self.boot =~= other.boot);
            }
        }
        equal
    }
}

/// What identifies a directory and the state of its listing.
#[derive(Clone, Copy, Debug, PartialEq, Eq)]
pub struct Stamp {
    pub device: u64,
    pub inode: u64,
    pub birth: Timestamp,
    pub modified: Timestamp,
    pub changed: Timestamp,
    pub generation: u32,
    pub volume: [u8; 16],
    pub fsid: [i32; 2],
}

impl DeepView for Stamp {
    type V = Stamp;

    open spec fn deep_view(&self) -> Stamp {
        *self
    }
}

impl Modeled for Stamp {
    fn duplicate(&self) -> (copy: Self) {
        *self
    }

    fn same(&self, other: &Self) -> (equal: bool) {
        let equal = self.device == other.device && self.inode == other.inode && self.birth
            == other.birth && self.modified == other.modified && self.changed == other.changed
            && self.generation == other.generation && equal_bytes(
            self.volume.as_slice(),
            other.volume.as_slice(),
        ) && self.fsid[0] == other.fsid[0] && self.fsid[1] == other.fsid[1];
        proof {
            if equal {
                assert(self.volume =~= other.volume);
                assert(self.fsid =~= other.fsid);
            }
        }
        equal
    }
}

impl Stamp {
    /// The stamp is specific enough to trust an equal one: it has a generation, a birth that
    /// is not in the future, and settled modification and change times.
    pub open spec fn is_eligible(&self, now: Timestamp) -> bool {
        &&& self.generation != 0
        &&& self.birth.is_valid()
        &&& !earlier(now, self.birth)
        &&& self.modified.is_settled(now)
        &&& self.changed.is_settled(now)
    }

    /// Whether the stamp is specific enough to trust an equal one.
    pub fn eligible(&self, now: Timestamp) -> (result: bool)
        ensures
            result == self.is_eligible(now),
    {
        self.generation != 0 && self.birth.valid() && !now.is_earlier(self.birth)
            && self.modified.settled(now) && self.changed.settled(now)
    }
}

/// An eligible stamp stays eligible as time goes on.
pub proof fn law_eligibility_lasts(stamp: Stamp, now: Timestamp, later: Timestamp)
    requires
        stamp.is_eligible(now),
        later.is_valid(),
        !earlier(later, now),
    ensures
        stamp.is_eligible(later),
{
}

/// The kind of a directory entry.
#[derive(Clone, Copy, Debug, PartialEq, Eq, Structural)]
pub enum EntryType {
    File,
    Directory,
    Symlink,
    Other,
}

impl DeepView for EntryType {
    type V = EntryType;

    open spec fn deep_view(&self) -> EntryType {
        *self
    }
}

impl EntryType {
    /// The kind that file metadata shows.
    pub fn of(is_file: bool, is_dir: bool, is_symlink: bool) -> (kind: Self)
        ensures
            kind == (if is_file {
                EntryType::File
            } else if is_dir {
                EntryType::Directory
            } else if is_symlink {
                EntryType::Symlink
            } else {
                EntryType::Other
            }),
    {
        if is_file {
            EntryType::File
        } else if is_dir {
            EntryType::Directory
        } else if is_symlink {
            EntryType::Symlink
        } else {
            EntryType::Other
        }
    }
}

/// An immediate child of a directory.
#[derive(Clone, Debug)]
pub struct Child {
    pub name: Bytes<MAX_NAME_BYTES>,
    pub kind: EntryType,
}

impl DeepView for Child {
    type V = (Seq<u8>, EntryType);

    open spec fn deep_view(&self) -> (Seq<u8>, EntryType) {
        (self.name.0@, self.kind)
    }
}

impl Modeled for Child {
    fn duplicate(&self) -> (copy: Self) {
        Child { name: BoundedVec(copy_bytes(self.name.0.as_slice())), kind: self.kind }
    }

    fn same(&self, other: &Self) -> (equal: bool) {
        equal_bytes(self.name.0.as_slice(), other.name.0.as_slice()) && self.kind == other.kind
    }
}

/// A directory of the inventory: its key, its stamp, and the range of its children.
#[derive(Clone, Debug)]
pub struct Directory {
    pub root: Bytes<MAX_PATH_BYTES>,
    pub relative: Bytes<MAX_PATH_BYTES>,
    pub stamp: Stamp,
    pub start: usize,
    pub len: usize,
}

impl Directory {
    /// What a directory is looked up by.
    pub open spec fn key(&self) -> (Seq<u8>, Seq<u8>) {
        (self.root.0@, self.relative.0@)
    }
}

/// The listings that one refresh hands to the next.
#[derive(Clone, Debug)]
pub struct DirectoryInventory {
    pub version: u32,
    pub projection: Bytes<MAX_PROJECTION_BYTES>,
    pub epoch: Epoch,
    pub observed: Timestamp,
    pub directories: BoundedVec<Directory, MAX_DIRECTORIES>,
    pub children: BoundedVec<Child, MAX_CHILDREN>,
}

/// A path that an inventory can hold.
pub open spec fn storable_path(path: Seq<u8>) -> bool {
    path.len() <= MAX_PATH_BYTES && !path.contains(0u8)
}

/// An immediate component: not empty, without separator or NUL, and neither `.` nor `..`.
pub open spec fn is_valid_name(name: Seq<u8>) -> bool {
    &&& 0 < name.len() <= MAX_NAME_BYTES
    &&& name != seq![DOT]
    &&& name != seq![DOT, DOT]
    &&& !name.contains(0u8)
    &&& !name.contains(SLASH)
}

/// The number of children of the first `n` directories.
pub open spec fn children_before(directories: Seq<Directory>, n: int) -> int
    decreases n,
{
    if n <= 0 {
        0
    } else {
        children_before(directories, n - 1) + directories[n - 1].len
    }
}

/// The path bytes of the first `n` directories.
pub open spec fn path_bytes_before(directories: Seq<Directory>, n: int) -> int
    decreases n,
{
    if n <= 0 {
        0
    } else {
        path_bytes_before(directories, n - 1) + directories[n - 1].root.0@.len() + directories[n
            - 1].relative.0@.len()
    }
}

/// The name bytes of the first `n` children.
pub open spec fn name_bytes_before(children: Seq<Child>, n: int) -> int
    decreases n,
{
    if n <= 0 {
        0
    } else {
        name_bytes_before(children, n - 1) + children[n - 1].name.0@.len()
    }
}

/// The key and the stamp of a directory can be relied on.
pub open spec fn directory_admissible(directory: Directory, now: Timestamp) -> bool {
    &&& storable_path(directory.root.0@)
    &&& storable_path(directory.relative.0@)
    &&& absolute(directory.root.0@)
    &&& only_names(byte_parts(directory.relative.0@))
    &&& directory.stamp.is_eligible(now)
}

/// The names of the children from `start` to `end` are valid, and no name occurs twice.
pub open spec fn names_admissible(children: Seq<Child>, start: int, end: int) -> bool {
    &&& forall|i: int| start <= i < end ==> is_valid_name((#[trigger] children[i]).name.0@)
    &&& forall|i: int, j: int|
        start <= i < j < end ==> (#[trigger] children[i]).name.0@ != (
        #[trigger] children[j]).name.0@
}

/// No two of the first `n` directories have the same key.
pub open spec fn keys_distinct(directories: Seq<Directory>, n: int) -> bool {
    forall|i: int, j: int|
        0 <= i < j < n ==> (#[trigger] directories[i]).key() != (#[trigger] directories[j]).key()
}

/// The first `n` directories have admissible keys and stamps, and take their children from
/// consecutive ranges.
pub open spec fn directories_admissible(
    directories: Seq<Directory>,
    children: Seq<Child>,
    now: Timestamp,
    n: int,
) -> bool {
    forall|i: int|
        #![trigger directories[i]]
        0 <= i < n ==> {
            &&& directory_admissible(directories[i], now)
            &&& directories[i].start == children_before(directories, i)
            &&& children_before(directories, i + 1) <= children.len()
            &&& names_admissible(
                children,
                children_before(directories, i),
                children_before(directories, i + 1),
            )
        }
}

impl DirectoryInventory {
    /// The inventory can be used for this projection, in this epoch, at this time.
    pub open spec fn is_valid(&self, projection: Seq<u8>, epoch: Epoch, now: Timestamp) -> bool {
        let directories = self.directories.0@;
        let children = self.children.0@;
        &&& self.version == VERSION
        &&& self.projection.0@ == projection
        &&& self.epoch == epoch
        &&& self.observed.is_valid()
        &&& !earlier(now, self.observed)
        &&& directories.len() <= MAX_DIRECTORIES
        &&& children.len() <= MAX_CHILDREN
        &&& directories_admissible(directories, children, now, directories.len() as int)
        &&& keys_distinct(directories, directories.len() as int)
        &&& children_before(directories, directories.len() as int) == children.len()
        &&& projection.len() + path_bytes_before(directories, directories.len() as int)
            + name_bytes_before(children, children.len() as int) <= MAX_TOTAL_BYTES
    }

    /// Whether the inventory can be used for this projection, in this epoch, at this time.
    pub fn valid(&self, projection: &[u8], epoch: &Epoch, now: Timestamp) -> (result: bool)
        ensures
            result == self.is_valid(projection@, *epoch, now),
    {
        if self.version != VERSION || !equal_bytes(self.projection.0.as_slice(), projection)
            || !self.epoch.same(epoch) || !self.observed.valid() || now.is_earlier(self.observed)
            || self.directories.0.len() > MAX_DIRECTORIES || self.children.0.len() > MAX_CHILDREN {
            return false;
        }
        let directories = &self.directories.0;
        let children = &self.children.0;
        let ghost count = directories@.len() as int;
        let mut keys: Vec<(Vec<u8>, Vec<u8>)> = Vec::new();
        let mut next: usize = 0;
        let mut bytes: usize = self.projection.0.len();
        let mut index: usize = 0;
        while index < directories.len()
            invariant
                index <= count,
                count == directories@.len(),
                directories == &self.directories.0,
                children == &self.children.0,
                projection@ == self.projection.0@,
                next == children_before(directories@, index as int),
                next <= children@.len(),
                directories_admissible(directories@, children@, now, index as int),
                keys@.len() == index,
                forall|i: int|
                    0 <= i < index ==> (#[trigger] keys@[i]).0@ == directories@[i].root.0@
                        && keys@[i].1@ == directories@[i].relative.0@,
                is_saturated_sum(
                    bytes,
                    projection@.len() + path_bytes_before(directories@, index as int)
                        + name_bytes_before(children@, next as int),
                ),
            decreases count - index,
        {
            let directory = &directories[index];
            proof {
                assert(directories_admissible(directories@, children@, now, count) ==> {
                    &&& directory_admissible(directories@[index as int], now)
                    &&& directories@[index as int].start == children_before(
                        directories@,
                        index as int,
                    )
                    &&& children_before(directories@, index + 1) <= children@.len()
                    &&& names_admissible(
                        children@,
                        children_before(directories@, index as int),
                        children_before(directories@, index + 1),
                    )
                });
            }
            if !usable_directory(directory, now) || directory.start != next {
                return false;
            }
            if children.len() - next < directory.len {
                return false;
            }
            let end: usize = next + directory.len;
            if !usable_names(children, next, end) {
                return false;
            }
            let mut i: usize = next;
            let ghost before = projection@.len() + path_bytes_before(directories@, index as int);
            while i < end
                invariant
                    next <= i <= end <= children@.len(),
                    is_saturated_sum(bytes, before + name_bytes_before(children@, i as int)),
                decreases end - i,
            {
                bytes = bytes.saturating_add(children[i].name.0.len());
                i += 1;
            }
            bytes = bytes.saturating_add(directory.root.0.len()).saturating_add(
                directory.relative.0.len(),
            );
            keys.push(
                (
                    copy_bytes(directory.root.0.as_slice()),
                    copy_bytes(directory.relative.0.as_slice()),
                ),
            );
            next = end;
            index += 1;
        }
        let repeated = has_repeat(&keys);
        proof {
            if repeated {
                let (i, j) = choose|i: int, j: int|
                    0 <= i < j < keys@.len() && (#[trigger] keys@[i]).rank() == (
                    #[trigger] keys@[j]).rank();
                lemma_pair_rank(keys@[i], keys@[j]);
                assert(directories@[i].key() == directories@[j].key());
            } else {
                assert forall|i: int, j: int| 0 <= i < j < count implies (
                #[trigger] directories@[i]).key() != (#[trigger] directories@[j]).key() by {
                    lemma_pair_rank(keys@[i], keys@[j]);
                }
            }
        }
        if repeated || next != children.len() {
            return false;
        }
        bytes <= MAX_TOTAL_BYTES
    }
}

/// `bytes` is the sum, or the largest machine integer where the sum is no smaller.
pub open spec fn is_saturated_sum(bytes: usize, sum: int) -> bool {
    bytes == sum || (bytes == usize::MAX && sum >= usize::MAX)
}

proof fn lemma_pair_rank(left: (Vec<u8>, Vec<u8>), right: (Vec<u8>, Vec<u8>))
    ensures
        (left.rank() == right.rank()) == (left.0@ == right.0@ && left.1@ == right.1@),
{
    assert(left.rank()[0] == left.0@ && left.rank()[1] == left.1@);
    assert(right.rank()[0] == right.0@ && right.rank()[1] == right.1@);
}

/// Whether the key and the stamp of a directory can be relied on.
fn usable_directory(directory: &Directory, now: Timestamp) -> (result: bool)
    ensures
        result == directory_admissible(*directory, now),
{
    storable(directory.root.0.as_slice()) && storable(directory.relative.0.as_slice())
        && FilePath::new(copy_bytes(directory.root.0.as_slice())).is_absolute() && FilePath::new(
        copy_bytes(directory.relative.0.as_slice()),
    ).only_names() && directory.stamp.eligible(now)
}

/// Whether the names of the children from `start` to `end` are valid and occur once.
fn usable_names(children: &Vec<Child>, start: usize, end: usize) -> (result: bool)
    requires
        start <= end <= children@.len(),
    ensures
        result == names_admissible(children@, start as int, end as int),
{
    let mut names: Vec<Vec<u8>> = Vec::new();
    let mut i: usize = start;
    while i < end
        invariant
            start <= i <= end <= children@.len(),
            names@.len() == i - start,
            forall|k: int|
                #![trigger names@[k]]
                0 <= k < names@.len() ==> names@[k]@ == children@[start + k].name.0@,
            forall|k: int|
                start <= k < i ==> is_valid_name((#[trigger] children@[k]).name.0@),
        decreases end - i,
    {
        if !valid_name(children[i].name.0.as_slice()) {
            return false;
        }
        names.push(copy_bytes(children[i].name.0.as_slice()));
        i += 1;
    }
    let repeated = has_repeat(&names);
    proof {
        if repeated {
            let (a, b) = choose|a: int, b: int|
                0 <= a < b < names@.len() && (#[trigger] names@[a]).rank() == (
                #[trigger] names@[b]).rank();
            assert(names@[a].rank()[0] == names@[b].rank()[0]);
            assert(children@[start + a].name.0@ == children@[start + b].name.0@);
        } else {
            assert forall|a: int, b: int| start <= a < b < end implies (
            #[trigger] children@[a]).name.0@ != (#[trigger] children@[b]).name.0@ by {
                assert(names@[a - start].rank() != names@[b - start].rank());
                assert(names@[a - start]@ == children@[a].name.0@);
                assert(names@[b - start]@ == children@[b].name.0@);
            }
        }
    }
    !repeated
}

/// Whether `byte` occurs in `bytes`.
fn has_byte(bytes: &[u8], byte: u8) -> (found: bool)
    ensures
        found == bytes@.contains(byte),
{
    let mut i: usize = 0;
    while i < bytes.len()
        invariant
            i <= bytes@.len(),
            forall|k: int| 0 <= k < i ==> bytes@[k] != byte,
        decreases bytes@.len() - i,
    {
        if bytes[i] == byte {
            return true;
        }
        i += 1;
    }
    false
}

/// Whether an inventory can hold this path.
pub fn storable(path: &[u8]) -> (result: bool)
    ensures
        result == storable_path(path@),
{
    path.len() <= MAX_PATH_BYTES && !has_byte(path, 0)
}

/// Whether `name` is an immediate component.
pub fn valid_name(name: &[u8]) -> (result: bool)
    ensures
        result == is_valid_name(name@),
{
    proof {
        assert(seq![DOT].len() == 1 && seq![DOT][0] == DOT);
        assert(seq![DOT, DOT].len() == 2 && seq![DOT, DOT][0] == DOT && seq![DOT, DOT][1] == DOT);
    }
    if name.len() == 0 || name.len() > MAX_NAME_BYTES {
        return false;
    }
    if name.len() == 1 && name[0] == DOT {
        assert(name@ =~= seq![DOT]);
        return false;
    }
    if name.len() == 2 && name[0] == DOT && name[1] == DOT {
        assert(name@ =~= seq![DOT, DOT]);
        return false;
    }
    !has_byte(name, 0) && !has_byte(name, SLASH)
}

/// The stored form of a path, if it can be stored.
pub fn encode_path(path: &[u8]) -> (encoded: Option<Vec<u8>>)
    ensures
        match encoded {
            Some(bytes) => storable_path(path@) && bytes@ == path@,
            None => !storable_path(path@),
        },
{
    if storable(path) {
        Some(copy_bytes(path))
    } else {
        None
    }
}

/// The path that a stored form stands for, if it stands for one.
pub fn decode_path(bytes: &[u8]) -> (path: Option<FilePath>)
    ensures
        match path {
            Some(path) => storable_path(bytes@) && path.spelling() == bytes@,
            None => !storable_path(bytes@),
        },
{
    if storable(bytes) {
        Some(FilePath::new(copy_bytes(bytes)))
    } else {
        None
    }
}

/// The stored form of a name, if it is a valid one.
pub fn encode_name(name: &[u8]) -> (encoded: Option<Vec<u8>>)
    ensures
        match encoded {
            Some(bytes) => is_valid_name(name@) && bytes@ == name@,
            None => !is_valid_name(name@),
        },
{
    match encode_path(name) {
        Some(bytes) => if valid_name(bytes.as_slice()) {
            Some(bytes)
        } else {
            None
        },
        None => None,
    }
}

/// The name that a stored form stands for, if it is a valid one.
pub fn decode_name(name: &[u8]) -> (decoded: Option<Vec<u8>>)
    ensures
        match decoded {
            Some(bytes) => is_valid_name(name@) && bytes@ == name@,
            None => !is_valid_name(name@),
        },
{
    if !valid_name(name) {
        return None;
    }
    match decode_path(name) {
        Some(path) => Some(copy_bytes(path.bytes().as_slice())),
        None => None,
    }
}

/// A time is settled once more than a second has passed since, as far as both are told, with a
/// part of a second for the earlier one. Of two times the earlier one has less seconds, or the
/// same and less of the next.
pub proof fn law_times_settle(time: Timestamp, now: Timestamp, other: Timestamp)
    ensures
        time.is_settled(now) <==> time.seconds >= 0 && 0 < time.nanos < 1_000_000_000 && now.seconds
            >= 0 && now.nanos < 1_000_000_000 && now.seconds - time.seconds > 1,
        time.is_valid() <==> time.seconds >= 0 && time.nanos < 1_000_000_000,
        time.nanos < 1_000_000_000 && other.nanos < 1_000_000_000 ==> (earlier(time, other)
            <==> time.seconds * 1_000_000_000 + time.nanos < other.seconds * 1_000_000_000
            + other.nanos),
        !(earlier(time, other) && earlier(other, time)),
        earlier(time, other) || earlier(other, time) || time == other,
        observed_earlier(Some(time), Some(other)) == earlier(time, other),
        observed_earlier(None, Some(other)) && !observed_earlier(Some(time), None),
{
}

/// A directory can be told by its stamp exactly if it has a generation, was not born in the
/// future, and neither its contents nor its metadata changed just now.
pub proof fn law_recent_stamps_are_not_trusted(stamp: Stamp, now: Timestamp)
    ensures
        stamp.is_eligible(now) <==> stamp.generation != 0 && stamp.birth.is_valid() && !earlier(
            now,
            stamp.birth,
        ) && stamp.modified.is_settled(now) && stamp.changed.is_settled(now),
        stamp.is_eligible(now) ==> now.seconds - stamp.modified.seconds > 1 && now.seconds
            - stamp.changed.seconds > 1,
{
}

/// A name can be stored exactly if it is one: not empty, not longer than a kilobyte, neither of
/// the two dotted ones, and without a zero or a slash. A path must not be longer than four
/// kilobytes, and holds no zero.
pub proof fn law_storable_names_and_paths(name: Seq<u8>, i: int)
    ensures
        is_valid_name(name) ==> 0 < name.len() <= 1_024 && name != seq![46u8] && name != seq![
            46u8,
            46u8,
        ],
        is_valid_name(name) && 0 <= i < name.len() ==> name[i] != 0 && name[i] != 47,
        0 < name.len() <= 1_024 && name != seq![46u8] && name != seq![46u8, 46u8] && (forall|
            k: int,
        |
            0 <= k < name.len() ==> #[trigger] name[k] != 0 && name[k] != 47) ==> is_valid_name(
            name,
        ),
        storable_path(name) ==> name.len() <= 4_096,
        storable_path(name) && 0 <= i < name.len() ==> name[i] != 0,
        name.len() <= 4_096 && (forall|k: int| 0 <= k < name.len() ==> #[trigger] name[k] != 0)
            ==> storable_path(name),
{
}

/// An inventory is trusted only if every part of it holds: the version, what it was made for and
/// in which epoch, a time that has passed, its limits, and for every directory an absolute root,
/// a path inside it, a stamp that can be trusted, its own place among the children, and names
/// that can be stored, none of them twice.
pub proof fn law_trusted_inventories_are_sound(
    inventory: DirectoryInventory,
    projection: Seq<u8>,
    epoch: Epoch,
    now: Timestamp,
    i: int,
    j: int,
    k: int,
)
    requires
        inventory.is_valid(projection, epoch, now),
    ensures
        inventory.version == 1 && inventory.projection.0@ == projection && inventory.epoch == epoch,
        !earlier(now, inventory.observed) && inventory.observed.is_valid(),
        inventory.directories.0@.len() <= 4_096 && inventory.children.0@.len() <= 65_536,
        0 <= i < inventory.directories.0@.len() ==> {
            let directory = inventory.directories.0@[i];
            let children = inventory.children.0@;
            &&& directory.root.0@.len() > 0 && directory.root.0@[0] == 47
            &&& only_names(byte_parts(directory.relative.0@))
            &&& directory.stamp.is_eligible(now)
            &&& directory.start + directory.len <= children.len()
            &&& i == 0 ==> directory.start == 0
            &&& i > 0 ==> directory.start == inventory.directories.0@[i - 1].start
                + inventory.directories.0@[i - 1].len
            &&& i == inventory.directories.0@.len() - 1 ==> directory.start + directory.len
                == children.len()
            &&& directory.start <= j < directory.start + directory.len ==> is_valid_name(
                children[j].name.0@,
            )
            &&& directory.start <= j < k < directory.start + directory.len
                ==> children[j].name.0@ != children[k].name.0@
            &&& i < k < inventory.directories.0@.len() ==> directory.key()
                != inventory.directories.0@[k].key()
        },
{
    let directories = inventory.directories.0@;
    let children = inventory.children.0@;
    if 0 <= i < directories.len() {
        assert(children_before(directories, i + 1) == children_before(directories, i)
            + directories[i].len);
        assert(directories[i].start == children_before(directories, i));
        if i > 0 {
            assert(directories[i - 1].start == children_before(directories, i - 1));
            assert(children_before(directories, i) == children_before(directories, i - 1)
                + directories[i - 1].len);
        }
    }
}

proof fn lemma_bytes_are_summed_up(directories: Seq<Directory>, children: Seq<Child>)
    ensures
        path_bytes_before(directories, directories.len() as int) == directories.fold_left(
            0int,
            |sum: int, directory: Directory|
                sum + directory.root.0@.len() + directory.relative.0@.len(),
        ),
        name_bytes_before(children, children.len() as int) == children.fold_left(
            0int,
            |sum: int, child: Child| sum + child.name.0@.len(),
        ),
    decreases directories.len() + children.len(),
{
    reveal(Seq::fold_left);
    if directories.len() > 0 {
        let fewer = directories.drop_last();
        lemma_bytes_are_summed_up(fewer, children);
        lemma_same_path_bytes(fewer, directories, fewer.len() as int);
    }
    if children.len() > 0 {
        let fewer = children.drop_last();
        lemma_bytes_are_summed_up(directories, fewer);
        lemma_same_name_bytes(fewer, children, fewer.len() as int);
    }
}

proof fn lemma_same_path_bytes(fewer: Seq<Directory>, more: Seq<Directory>, n: int)
    requires
        n <= fewer.len() <= more.len(),
        forall|i: int| 0 <= i < fewer.len() ==> fewer[i] == more[i],
    ensures
        path_bytes_before(fewer, n) == path_bytes_before(more, n),
    decreases n,
{
    if n > 0 {
        lemma_same_path_bytes(fewer, more, n - 1);
    }
}

proof fn lemma_same_name_bytes(fewer: Seq<Child>, more: Seq<Child>, n: int)
    requires
        n <= fewer.len() <= more.len(),
        forall|i: int| 0 <= i < fewer.len() ==> fewer[i] == more[i],
    ensures
        name_bytes_before(fewer, n) == name_bytes_before(more, n),
    decreases n,
{
    if n > 0 {
        lemma_same_name_bytes(fewer, more, n - 1);
    }
}

proof fn lemma_consecutive_ranges(directories: Seq<Directory>, n: int)
    requires
        n < directories.len(),
        forall|i: int|
            #![trigger directories[i]]
            0 <= i < directories.len() ==> directories[i].start == if i == 0 {
                0
            } else {
                directories[i - 1].start + directories[i - 1].len
            },
    ensures
        0 <= n ==> directories[n].start == children_before(directories, n),
    decreases n,
{
    if n > 0 {
        lemma_consecutive_ranges(directories, n - 1);
        assert(directories[n - 1].start == children_before(directories, n - 1));
    }
}

/// An inventory is trusted whenever every part of it holds: the version, what it was made for
/// and in which epoch, a time that has passed, its limits in number and in bytes, and for every
/// directory a key of its own that can be relied on, the range of children behind the last one,
/// and names that can be stored, none of them twice.
pub proof fn law_sound_inventories_are_trusted(
    inventory: DirectoryInventory,
    projection: Seq<u8>,
    epoch: Epoch,
    now: Timestamp,
)
    requires
        inventory.version == 1,
        inventory.projection.0@ == projection,
        inventory.epoch == epoch,
        inventory.observed.is_valid(),
        !earlier(now, inventory.observed),
        inventory.directories.0@.len() <= 4_096,
        inventory.children.0@.len() <= 65_536,
        ({
            let directories = inventory.directories.0@;
            let children = inventory.children.0@;
            &&& directories.len() == 0 ==> children.len() == 0
            &&& directories.len() > 0 ==> directories.last().start + directories.last().len
                == children.len()
            &&& forall|i: int|
                #![trigger directories[i]]
                0 <= i < directories.len() ==> {
                    &&& storable_path(directories[i].root.0@)
                    &&& storable_path(directories[i].relative.0@)
                    &&& directories[i].root.0@.len() > 0
                    &&& directories[i].root.0@[0] == 47
                    &&& only_names(byte_parts(directories[i].relative.0@))
                    &&& directories[i].stamp.is_eligible(now)
                    &&& directories[i].start + directories[i].len <= children.len()
                    &&& directories[i].start == if i == 0 {
                        0
                    } else {
                        directories[i - 1].start + directories[i - 1].len
                    }
                }
            &&& forall|i: int, j: int|
                0 <= i < j < directories.len() ==> (#[trigger] directories[i]).key() != (
                #[trigger] directories[j]).key()
            &&& forall|i: int, j: int|
                #![trigger directories[i], children[j]]
                0 <= i < directories.len() && directories[i].start <= j < directories[i].start
                    + directories[i].len ==> is_valid_name(children[j].name.0@)
            &&& forall|i: int, j: int, k: int|
                #![trigger directories[i], children[j], children[k]]
                0 <= i < directories.len() && directories[i].start <= j < k < directories[i].start
                    + directories[i].len ==> children[j].name.0@ != children[k].name.0@
            &&& projection.len() + directories.fold_left(
                0int,
                |sum: int, directory: Directory|
                    sum + directory.root.0@.len() + directory.relative.0@.len(),
            ) + children.fold_left(0int, |sum: int, child: Child| sum + child.name.0@.len())
                <= 16_777_216
        }),
    ensures
        inventory.is_valid(projection, epoch, now),
{
    let directories = inventory.directories.0@;
    let children = inventory.children.0@;
    let n = directories.len() as int;
    lemma_bytes_are_summed_up(directories, children);
    assert forall|i: int|
        #![trigger directories[i]]
        0 <= i < n implies {
        &&& directory_admissible(directories[i], now)
        &&& directories[i].start == children_before(directories, i)
        &&& children_before(directories, i + 1) <= children.len()
        &&& names_admissible(
            children,
            children_before(directories, i),
            children_before(directories, i + 1),
        )
    } by {
        lemma_consecutive_ranges(directories, i);
        assert(children_before(directories, i + 1) == directories[i].start + directories[i].len);
    }
    if n > 0 {
        lemma_consecutive_ranges(directories, n - 1);
        assert(directories[n - 1] == directories.last());
    }
}

/// What is trusted stays within its limit in bytes, all names and paths counted.
pub proof fn law_trusted_inventories_are_bounded(
    inventory: DirectoryInventory,
    projection: Seq<u8>,
    epoch: Epoch,
    now: Timestamp,
)
    requires
        inventory.is_valid(projection, epoch, now),
    ensures
        projection.len() + inventory.directories.0@.fold_left(
            0int,
            |sum: int, directory: Directory|
                sum + directory.root.0@.len() + directory.relative.0@.len(),
        ) + inventory.children.0@.fold_left(
            0int,
            |sum: int, child: Child| sum + child.name.0@.len(),
        ) <= 16_777_216,
{
    lemma_bytes_are_summed_up(inventory.directories.0@, inventory.children.0@);
}

} // verus!
