//! The walk below a source root that reuses cached directory listings, and the inventory it
//! leaves for the next request. The caller opens directories, reads stamps and lists names; the
//! inventory decides what to reuse, what to keep, and when the whole walk must be given up.

use vstd::multiset::Multiset;
use vstd::prelude::*;
use crate::inventory::{
    children_before, directories_admissible, directory_admissible, earlier, encode_name,
    encode_path, is_observed_earlier, is_saturated_sum, is_valid_name, keys_distinct,
    name_bytes_before, names_admissible, observed_earlier, path_bytes_before, storable_path,
    BoundedVec, Child, Directory, DirectoryInventory, EntryType, Epoch, Stamp, Timestamp,
    MAX_CHILDREN, MAX_DIRECTORIES, MAX_PROJECTION_BYTES, MAX_TOTAL_BYTES, VERSION,
};
use crate::model::{lemma_bytes_model, Modeled};
use crate::path::{absolute, copy_bytes, join, joined, FilePath, SLASH};
use crate::sorted::{paired, SortedMap};

verus! {

/// A directory is looked up by its root and by its path below that root.
pub type DirectoryKey = (Vec<u8>, Vec<u8>);

/// The model of a listing: the stamp it was made under, and the children.
pub type ListingModel = (Stamp, Seq<(Seq<u8>, EntryType)>);

/// The model of the listings of an inventory.
pub type ListingsModel = Map<(Seq<u8>, Seq<u8>), ListingModel>;

/// Listings by directory.
pub type Listings = SortedMap<DirectoryKey, (Stamp, Vec<Child>)>;

/// How often the steps of a walk were taken.
#[derive(Clone, Copy, Debug, PartialEq, Eq, Structural)]
pub struct InventoryCounters {
    pub directories_checked: usize,
    pub directories_reused: usize,
    pub directories_enumerated: usize,
    pub fallback_walks: usize,
    pub metadata_checks: usize,
}

impl Default for InventoryCounters {
    fn default() -> (counters: Self)
        ensures
            counters == zero_counters(),
    {
        InventoryCounters {
            directories_checked: 0,
            directories_reused: 0,
            directories_enumerated: 0,
            fallback_walks: 0,
            metadata_checks: 0,
        }
    }
}

/// Nothing was counted.
pub open spec fn zero_counters() -> InventoryCounters {
    InventoryCounters {
        directories_checked: 0,
        directories_reused: 0,
        directories_enumerated: 0,
        fallback_walks: 0,
        metadata_checks: 0,
    }
}

/// One more, up to the largest count.
pub open spec fn one_more(count: usize) -> usize {
    if count < usize::MAX {
        (count + 1) as usize
    } else {
        count
    }
}

fn count_up(count: usize) -> (result: usize)
    ensures
        result == one_more(count),
{
    count.saturating_add(1)
}

/// An entry of a walk.
#[derive(Debug)]
pub struct DiscoveredEntry {
    pub path: FilePath,
    pub depth: usize,
    pub file_type: EntryType,
}

impl DeepView for DiscoveredEntry {
    type V = (Seq<u8>, usize, EntryType);

    open spec fn deep_view(&self) -> (Seq<u8>, usize, EntryType) {
        (self.path.spelling(), self.depth, self.file_type)
    }
}

/// An entry that a walk has reached: its path, its path below the root, its depth and kind.
pub struct Visit {
    pub path: Seq<u8>,
    pub relative: Seq<u8>,
    pub depth: usize,
    pub kind: EntryType,
}

impl Visit {
    /// The entry as a walk reports it.
    pub open spec fn entry(self) -> (Seq<u8>, usize, EntryType) {
        (self.path, self.depth, self.kind)
    }
}

/// The path below the root of a child.
pub open spec fn relative_below(relative: Seq<u8>, name: Seq<u8>) -> Seq<u8> {
    if relative.len() == 0 {
        name
    } else {
        relative.push(SLASH) + name
    }
}

/// The visit of a child.
pub open spec fn child_visit(parent: Visit, child: (Seq<u8>, EntryType)) -> Visit {
    Visit {
        path: joined(parent.path, child.0),
        relative: relative_below(parent.relative, child.0),
        depth: one_more(parent.depth),
        kind: child.1,
    }
}

/// The visits of the children of a directory, in the order of its listing.
pub open spec fn child_visits(parent: Visit, children: Seq<(Seq<u8>, EntryType)>) -> Seq<Visit> {
    Seq::new(children.len(), |i: int| child_visit(parent, children[i]))
}

/// The entries met when `pending` is visited in order, each directory before its children and
/// those before whatever follows it. `listings` holds the listings of the directories in the
/// order they are met; a directory without one counts as empty.
pub open spec fn visit_all(
    pending: Seq<Visit>,
    listings: Seq<Seq<(Seq<u8>, EntryType)>>,
) -> Seq<(Seq<u8>, usize, EntryType)>
    decreases listings.len(), pending.len(),
{
    if pending.len() == 0 {
        Seq::empty()
    } else {
        let first = pending[0];
        let rest = pending.drop_first();
        if first.kind == EntryType::Directory && listings.len() > 0 {
            seq![first.entry()] + visit_all(
                child_visits(first, listings[0]) + rest,
                listings.drop_first(),
            )
        } else {
            seq![first.entry()] + visit_all(rest, listings)
        }
    }
}

/// How many of the listings the visit of `pending` uses up.
pub open spec fn listings_used(
    pending: Seq<Visit>,
    listings: Seq<Seq<(Seq<u8>, EntryType)>>,
) -> nat
    decreases listings.len(), pending.len(),
{
    if pending.len() == 0 {
        0
    } else {
        let first = pending[0];
        let rest = pending.drop_first();
        if first.kind == EntryType::Directory && listings.len() > 0 {
            1 + listings_used(child_visits(first, listings[0]) + rest, listings.drop_first())
        } else {
            listings_used(rest, listings)
        }
    }
}

/// The entries below one visit come together, before those of the visits that follow it.
pub proof fn law_subtrees_are_contiguous(
    left: Seq<Visit>,
    right: Seq<Visit>,
    listings: Seq<Seq<(Seq<u8>, EntryType)>>,
)
    ensures
        listings_used(left, listings) <= listings.len(),
        visit_all(left + right, listings) == visit_all(left, listings) + visit_all(
            right,
            listings.skip(listings_used(left, listings) as int),
        ),
    decreases listings.len(), left.len(),
{
    if left.len() == 0 {
        assert(left + right =~= right);
        assert(listings.skip(0) =~= listings);
    } else {
        let first = left[0];
        let rest = left.drop_first();
        assert((left + right)[0] == first);
        assert((left + right).drop_first() =~= rest + right);
        if first.kind == EntryType::Directory && listings.len() > 0 {
            let below = child_visits(first, listings[0]);
            let fewer = listings.drop_first();
            law_subtrees_are_contiguous(below + rest, right, fewer);
            assert((below + rest) + right =~= below + (rest + right));
            let used = listings_used(below + rest, fewer) as int;
            assert(fewer.skip(used) =~= listings.skip(used + 1));
            assert(visit_all(left + right, listings) =~= visit_all(left, listings) + visit_all(
                right,
                listings.skip(used + 1),
            ));
        } else {
            law_subtrees_are_contiguous(rest, right, listings);
            assert(visit_all(left + right, listings) =~= visit_all(left, listings) + visit_all(
                right,
                listings.skip(listings_used(left, listings) as int),
            ));
        }
    }
}

/// The sum of `weight` over the entries of a finite map.
pub open spec fn total<K, V>(map: Map<K, V>, weight: spec_fn(K, V) -> nat) -> nat
    decreases map.dom().len(),
    when map.dom().finite()
{
    if map.dom().len() == 0 {
        0
    } else {
        let key = map.dom().choose();
        weight(key, map[key]) + total(map.remove(key), weight)
    }
}

proof fn lemma_total_remove<K, V>(map: Map<K, V>, weight: spec_fn(K, V) -> nat, key: K)
    requires
        map.dom().finite(),
        map.contains_key(key),
    ensures
        total(map, weight) == weight(key, map[key]) + total(map.remove(key), weight),
    decreases map.dom().len(),
{
    let chosen = map.dom().choose();
    assert(map.dom().len() > 0);
    assert(map.dom().contains(chosen));
    if chosen != key {
        lemma_total_remove(map.remove(chosen), weight, key);
        lemma_total_remove(map.remove(key), weight, chosen);
        assert(map.remove(chosen).remove(key) =~= map.remove(key).remove(chosen));
    }
}

proof fn lemma_total_insert<K, V>(map: Map<K, V>, weight: spec_fn(K, V) -> nat, key: K, value: V)
    requires
        map.dom().finite(),
        !map.contains_key(key),
    ensures
        total(map.insert(key, value), weight) == total(map, weight) + weight(key, value),
{
    lemma_total_remove(map.insert(key, value), weight, key);
    assert(map.insert(key, value).remove(key) =~= map);
}

/// The bytes of the names of a listing.
pub open spec fn names_len(children: Seq<(Seq<u8>, EntryType)>) -> nat
    decreases children.len(),
{
    if children.len() == 0 {
        0
    } else {
        names_len(children.drop_last()) + children.last().0.len()
    }
}

/// The number of children that a listing adds to an inventory.
pub open spec fn child_weight() -> spec_fn((Seq<u8>, Seq<u8>), ListingModel) -> nat {
    |key: (Seq<u8>, Seq<u8>), listing: ListingModel| listing.1.len()
}

/// The bytes that a listing adds to an inventory.
pub open spec fn byte_weight() -> spec_fn((Seq<u8>, Seq<u8>), ListingModel) -> nat {
    |key: (Seq<u8>, Seq<u8>), listing: ListingModel|
        key.0.len() + key.1.len() + names_len(listing.1)
}

/// The listings fit into an inventory with a projection of this length.
pub open spec fn within_limits(listings: ListingsModel, projection: nat) -> bool {
    &&& listings.dom().finite()
    &&& listings.dom().len() <= MAX_DIRECTORIES
    &&& total(listings, child_weight()) <= MAX_CHILDREN
    &&& projection + total(listings, byte_weight()) <= MAX_TOTAL_BYTES
}

/// What an inventory knows.
#[verifier::ext_equal]
pub struct InventoryState {
    pub previous: ListingsModel,
    pub next: ListingsModel,
    pub projection: Seq<u8>,
    pub epoch: Option<Epoch>,
    pub started: Option<Timestamp>,
    pub counters: InventoryCounters,
    pub collecting: bool,
    pub failed: bool,
}

impl InventoryState {
    /// Without any listing, and collecting none.
    pub open spec fn invalidated(self) -> InventoryState {
        InventoryState {
            previous: Map::empty(),
            next: Map::empty(),
            collecting: false,
            ..self
        }
    }

    /// The walk in progress has failed.
    pub open spec fn with_failure(self) -> InventoryState {
        InventoryState { failed: true, ..self }
    }

    /// One more directory was reused.
    pub open spec fn reused(self) -> InventoryState {
        InventoryState {
            counters: InventoryCounters {
                directories_reused: one_more(self.counters.directories_reused),
                ..self.counters
            },
            ..self
        }
    }

    /// One more directory was listed.
    pub open spec fn listed(self) -> InventoryState {
        InventoryState {
            counters: InventoryCounters {
                directories_enumerated: one_more(self.counters.directories_enumerated),
                ..self.counters
            },
            ..self
        }
    }

    /// A walk may reuse listings: the epoch is known and still that of the request, time has not
    /// gone back, and listings are collected.
    pub open spec fn admits(self, epoch: Option<Epoch>, now: Option<Timestamp>) -> bool {
        &&& epoch is Some && epoch == self.epoch
        &&& now is Some && !observed_earlier(now, self.started)
        &&& self.collecting
    }

    /// What a walk since then found can be trusted.
    pub open spec fn trusts(
        self,
        since: Timestamp,
        epoch: Option<Epoch>,
        now: Option<Timestamp>,
    ) -> bool {
        !self.failed && epoch == self.epoch && !observed_earlier(now, Some(since))
    }

    /// The listings are worth keeping for the next request.
    pub open spec fn worth_keeping(self, epoch: Option<Epoch>, observed: Option<Timestamp>) -> bool {
        &&& self.collecting && self.next.dom().len() > 0
        &&& self.epoch is Some && epoch == self.epoch
        &&& observed is Some && !observed_earlier(observed, self.started)
    }

    /// While listings are collected, they keep the limits of an inventory.
    pub open spec fn bounded(self) -> bool {
        self.collecting ==> within_limits(self.next, self.projection.len())
    }

    /// The listing on record for a directory: one made by this request, else a loaded one.
    pub open spec fn recorded(self, key: (Seq<u8>, Seq<u8>)) -> Option<ListingModel> {
        if self.next.contains_key(key) {
            Some(self.next[key])
        } else if self.previous.contains_key(key) {
            Some(self.previous[key])
        } else {
            None
        }
    }

    /// The children to reuse for a directory that was observed with this stamp.
    pub open spec fn reusable(
        self,
        key: Option<(Seq<u8>, Seq<u8>)>,
        before: Option<Stamp>,
        now: Option<Timestamp>,
    ) -> Option<Seq<(Seq<u8>, EntryType)>> {
        match (key, before) {
            (Some(key), Some(stamp)) => match self.recorded(key) {
                Some(listing) => if is_eligible(before, now) && listing.0 == stamp {
                    Some(listing.1)
                } else {
                    None
                },
                None => None,
            },
            _ => None,
        }
    }

    /// After a listing was offered for storage: kept if it fits, and else nothing is kept.
    pub open spec fn stored(
        self,
        key: Option<(Seq<u8>, Seq<u8>)>,
        stamp: Option<Stamp>,
        children: Seq<(Seq<u8>, EntryType)>,
    ) -> InventoryState {
        match (key, stamp) {
            (Some(key), Some(stamp)) => if !self.collecting {
                self
            } else {
                let others = self.next.remove(key);
                let grown = others.insert(key, (stamp, children));
                if within_limits(grown, self.projection.len()) {
                    InventoryState { next: grown, ..self }
                } else {
                    self.invalidated()
                }
            },
            _ => self,
        }
    }
}

/// A directory was observed with a stamp that can be relied on.
pub open spec fn is_eligible(before: Option<Stamp>, now: Option<Timestamp>) -> bool {
    match (before, now) {
        (Some(stamp), Some(now)) => stamp.is_eligible(now),
        _ => false,
    }
}

/// The key of the directory at `relative` below `root`, if both can be stored.
pub open spec fn key_of(root: Seq<u8>, relative: Seq<u8>) -> Option<(Seq<u8>, Seq<u8>)> {
    if storable_path(root) && storable_path(relative) {
        Some((root, relative))
    } else {
        None
    }
}

/// The listings of the first `n` directories of an inventory.
pub open spec fn listings_upto(
    directories: Seq<Directory>,
    children: Seq<(Seq<u8>, EntryType)>,
    n: int,
) -> ListingsModel
    decreases n,
{
    if n <= 0 {
        Map::empty()
    } else {
        let directory = directories[n - 1];
        listings_upto(directories, children, n - 1).insert(
            directory.key(),
            (
                directory.stamp,
                children.subrange(directory.start as int, directory.start + directory.len),
            ),
        )
    }
}

/// The listings of an inventory.
pub open spec fn listings_of(inventory: DirectoryInventory) -> ListingsModel {
    listings_upto(
        inventory.directories.0@,
        inventory.children.0.deep_view(),
        inventory.directories.0@.len() as int,
    )
}

/// The listings that a request may start from.
pub open spec fn loaded(
    previous: Option<DirectoryInventory>,
    projection: Seq<u8>,
    epoch: Option<Epoch>,
    now: Option<Timestamp>,
) -> ListingsModel {
    match (previous, epoch, now) {
        (Some(previous), Some(epoch), Some(now)) => if previous.is_valid(projection, epoch, now) {
            listings_of(previous)
        } else {
            Map::empty()
        },
        _ => Map::empty(),
    }
}

/// The number of visits before the first directory.
pub open spec fn leading_files(visits: Seq<Visit>) -> nat
    decreases visits.len(),
{
    if visits.len() == 0 || visits[0].kind == EntryType::Directory {
        0
    } else {
        1 + leading_files(visits.drop_first())
    }
}

/// The state in which a request begins.
pub open spec fn begun(
    previous: Option<DirectoryInventory>,
    projection: Seq<u8>,
    epoch: Option<Epoch>,
    started: Option<Timestamp>,
) -> InventoryState {
    InventoryState {
        previous: loaded(previous, projection, epoch, started),
        next: Map::empty(),
        projection,
        epoch,
        started,
        counters: zero_counters(),
        collecting: projection.len() <= MAX_PROJECTION_BYTES,
        failed: false,
    }
}

/// A walk in progress: the entries found and those still to visit.
#[verifier::ext_equal]
pub struct WalkState {
    pub root: Seq<u8>,
    pub since: Timestamp,
    pub current: Option<Visit>,
    pub pending: Seq<Visit>,
    pub listings: Seq<Seq<(Seq<u8>, EntryType)>>,
}

impl WalkState {
    /// The walk after its current directory was found to hold `children`.
    pub open spec fn descended(self, children: Seq<(Seq<u8>, EntryType)>) -> WalkState {
        match self.current {
            Some(visit) => WalkState {
                current: None,
                pending: child_visits(visit, children) + self.pending,
                listings: self.listings.push(children),
                ..self
            },
            None => self,
        }
    }

    /// The walk at its next directory, all entries before it being reported.
    pub open spec fn advanced(self) -> WalkState {
        let files = leading_files(self.pending) as int;
        match self.current {
            Some(_) => self,
            None => if files < self.pending.len() {
                WalkState {
                    current: Some(self.pending[files]),
                    pending: self.pending.skip(files + 1),
                    ..self
                }
            } else {
                WalkState { pending: Seq::empty(), ..self }
            },
        }
    }

    /// The walk has nothing left to visit.
    pub open spec fn finished(self) -> bool {
        self.current is None && self.pending.len() == 0
    }

    /// The key of the current directory.
    pub open spec fn key(self) -> Option<(Seq<u8>, Seq<u8>)> {
        match self.current {
            Some(visit) => key_of(self.root, visit.relative),
            None => None,
        }
    }
}

struct PendingVisit {
    path: FilePath,
    relative: Vec<u8>,
    depth: usize,
    kind: EntryType,
}

impl DeepView for PendingVisit {
    type V = Visit;

    closed spec fn deep_view(&self) -> Visit {
        Visit {
            path: self.path.spelling(),
            relative: self.relative@,
            depth: self.depth,
            kind: self.kind,
        }
    }
}

/// A walk in progress.
pub struct Walk {
    root: FilePath,
    since: Timestamp,
    current: Option<PendingVisit>,
    pending: Vec<PendingVisit>,
    found: Vec<DiscoveredEntry>,
    listings: Ghost<Seq<Seq<(Seq<u8>, EntryType)>>>,
    start: Ghost<Visit>,
}

/// The visits still to make, the next one first.
spec fn upcoming(current: Option<PendingVisit>, pending: Seq<PendingVisit>) -> Seq<Visit> {
    let later = Seq::new(
        pending.len(),
        |i: int| pending[pending.len() - 1 - i].deep_view(),
    );
    match current {
        Some(visit) => seq![visit.deep_view()] + later,
        None => later,
    }
}

/// Whatever is listed from here on, the walk from `start` consists of what was found and of
/// the visits that are coming.
spec fn continues(
    start: Visit,
    listings: Seq<Seq<(Seq<u8>, EntryType)>>,
    found: Seq<(Seq<u8>, usize, EntryType)>,
    coming: Seq<Visit>,
) -> bool {
    forall|more: Seq<Seq<(Seq<u8>, EntryType)>>| #[trigger]
        visit_all(seq![start], listings + more) == found + visit_all(coming, more)
}

impl Walk {
    /// Where the walk stands.
    pub closed spec fn state(&self) -> WalkState {
        WalkState {
            root: self.root.spelling(),
            since: self.since,
            current: self.current.deep_view(),
            pending: upcoming(None, self.pending@),
            listings: self.listings@,
        }
    }

    /// The visit that the walk started from.
    pub closed spec fn start(&self) -> Visit {
        self.start@
    }

    /// The entries found so far.
    pub closed spec fn found(&self) -> Seq<(Seq<u8>, usize, EntryType)> {
        self.found.deep_view()
    }

    #[verifier::type_invariant]
    spec fn well_formed(&self) -> bool {
        &&& self.current matches Some(visit) ==> visit.kind == EntryType::Directory
        &&& continues(
            self.start@,
            self.listings@,
            self.found.deep_view(),
            upcoming(self.current, self.pending@),
        )
    }

    fn begin(root: FilePath, since: Timestamp, kind: EntryType) -> (walk: Self)
        ensures
            walk.state().root == root.spelling(),
            walk.state().since == since,
            walk.state().current is None,
            walk.state().pending == seq![walk.start()],
            walk.state().listings.len() == 0,
            walk.start() == (Visit {
                path: root.spelling(),
                relative: Seq::empty(),
                depth: 0,
                kind,
            }),
    {
        let first = PendingVisit { path: root.copy(), relative: Vec::new(), depth: 0, kind };
        let ghost start = first.deep_view();
        let mut pending: Vec<PendingVisit> = Vec::new();
        pending.push(first);
        let found: Vec<DiscoveredEntry> = Vec::new();
        proof {
            assert(upcoming(None, pending@) =~= seq![start]);
            assert(found.deep_view() =~= Seq::empty());
            assert forall|more: Seq<Seq<(Seq<u8>, EntryType)>>| #[trigger]
                visit_all(seq![start], Seq::empty() + more) == found.deep_view() + visit_all(
                    seq![start],
                    more,
                ) by {
                assert(Seq::<Seq<(Seq<u8>, EntryType)>>::empty() + more =~= more);
                assert(found.deep_view() + visit_all(seq![start], more) =~= visit_all(
                    seq![start],
                    more,
                ));
            }
            assert(start.relative =~= Seq::empty());
        }
        Walk {
            root,
            since,
            current: None,
            pending,
            found,
            listings: Ghost(Seq::empty()),
            start: Ghost(start),
        }
    }

    /// Moves on to the next directory, and hands out its path. Entries of other kinds on the
    /// way are reported as they are.
    pub fn next_directory(&mut self) -> (path: Option<FilePath>)
        ensures
            final(self).start() == old(self).start(),
            final(self).state() == old(self).state().advanced(),
            match path {
                Some(found) => final(self).state().current matches Some(visit) && found.spelling()
                    == visit.path,
                None => final(self).state().finished(),
            },
    {
        if let Some(visit) = &self.current {
            return Some(visit.path.copy());
        }
        let mut taken = Walk::begin(self.root.copy(), self.since, EntryType::Other);
        std::mem::swap(&mut taken, self);
        proof {
            use_type_invariant(&taken);
        }
        let ghost before = taken.state().pending;
        let ghost first = taken.start@;
        let ghost log = taken.listings@;
        let Walk { root, since, current: _, mut pending, mut found, listings, start } = taken;
        let mut current: Option<PendingVisit> = None;
        let mut path: Option<FilePath> = None;
        let ghost mut skipped: int = 0;
        assert(before.skip(0) =~= before);
        while current.is_none() && pending.len() > 0
            invariant
                0 <= skipped <= before.len(),
                upcoming(current, pending@) == before.skip(skipped),
                leading_files(before) == skipped + leading_files(before.skip(skipped)),
                continues(first, log, found.deep_view(), upcoming(current, pending@)),
                match (current, path) {
                    (Some(visit), Some(spelled)) => visit.kind == EntryType::Directory
                        && spelled.spelling() == visit.path.spelling(),
                    (None, None) => true,
                    _ => false,
                },
            decreases pending@.len() + (if current is None { 1int } else { 0 }),
        {
            let ghost coming = upcoming(None, pending@);
            let ghost shown = found.deep_view();
            let ghost waiting = pending@;
            let visit = pending.pop().unwrap();
            proof {
                assert(coming[0] == visit.deep_view());
                assert(coming.drop_first() =~= upcoming(None, pending@));
                assert(coming =~= seq![visit.deep_view()] + upcoming(None, pending@));
            }
            match visit.kind {
                EntryType::Directory => {
                    path = Some(visit.path.copy());
                    current = Some(visit);
                    assert(upcoming(current, pending@) =~= coming);
                },
                _ => {
                    let ghost entry = visit.deep_view().entry();
                    found.push(
                        DiscoveredEntry {
                            path: visit.path,
                            depth: visit.depth,
                            file_type: visit.kind,
                        },
                    );
                    proof {
                        assert(found.deep_view() =~= shown.push(entry));
                        assert forall|more: Seq<Seq<(Seq<u8>, EntryType)>>| #[trigger]
                            visit_all(seq![first], log + more) == found.deep_view() + visit_all(
                                upcoming(None, pending@),
                                more,
                            ) by {
                            assert(visit_all(coming, more) == seq![entry] + visit_all(
                                coming.drop_first(),
                                more,
                            ));
                            assert(shown + (seq![entry] + visit_all(coming.drop_first(), more))
                                =~= shown.push(entry) + visit_all(coming.drop_first(), more));
                        }
                        assert(before.skip(skipped).drop_first() =~= before.skip(skipped + 1));
                        skipped = skipped + 1;
                    }
                },
            }
        }
        proof {
            if current is Some {
                let rest = before.skip(skipped);
                assert(rest[0] == before[skipped]);
                assert(upcoming(current, pending@).drop_first() =~= upcoming(None, pending@));
                assert(rest.drop_first() =~= before.skip(skipped + 1));
                assert(leading_files(rest) == 0);
            } else {
                assert(before.skip(skipped).len() == 0);
            }
        }
        *self = Walk { root, since, current, pending, found, listings, start };
        path
    }

    /// Records that the current directory holds `children`, which are visited next.
    fn descend(&mut self, children: &Vec<(Vec<u8>, EntryType)>)
        ensures
            final(self).start() == old(self).start(),
            final(self).state() == old(self).state().descended(children.deep_view()),
    {
        broadcast use lemma_bytes_model;

        if self.current.is_none() {
            return ;
        }
        let mut taken = Walk::begin(self.root.copy(), self.since, EntryType::Other);
        std::mem::swap(&mut taken, self);
        proof {
            use_type_invariant(&taken);
        }
        let ghost first = taken.start@;
        let ghost log = taken.listings@;
        let ghost later = taken.state().pending;
        let ghost coming = upcoming(taken.current, taken.pending@);
        let ghost model = children.deep_view();
        let Walk { root, since, current, mut pending, mut found, listings, start } = taken;
        let visit = current.unwrap();
        let ghost parent = visit.deep_view();
        let ghost shown = found.deep_view();
        let mut left: usize = children.len();
        assert(upcoming(None, pending@) =~= child_visits(parent, model).skip(left as int) + later);
        while left > 0
            invariant
                left <= children@.len(),
                model == children.deep_view(),
                parent == visit.deep_view(),
                upcoming(None, pending@) == child_visits(parent, model).skip(left as int) + later,
            decreases left,
        {
            left -= 1;
            let child = &children[left];
            let relative = if visit.relative.len() == 0 {
                copy_bytes(child.0.as_slice())
            } else {
                let mut relative = copy_bytes(visit.relative.as_slice());
                relative.push(SLASH);
                relative.extend_from_slice(child.0.as_slice());
                assert(relative@ =~= relative_below(visit.relative@, child.0@));
                relative
            };
            let next = PendingVisit {
                path: FilePath::new(join(visit.path.bytes().as_slice(), child.0.as_slice())),
                relative,
                depth: count_up(visit.depth),
                kind: child.1,
            };
            let ghost waiting = pending@;
            pending.push(next);
            proof {
                lemma_bytes_model(children@[left as int].0);
                assert(model[left as int] == (child.0@, child.1));
                assert(next.deep_view() == child_visit(parent, model[left as int]));
                assert(upcoming(None, pending@) =~= seq![next.deep_view()] + upcoming(
                    None,
                    waiting,
                ));
                let visits = child_visits(parent, model);
                assert(visits.skip(left as int) =~= seq![visits[left as int]] + visits.skip(
                    left + 1,
                ));
                assert(upcoming(None, pending@) =~= visits.skip(left as int) + later);
            }
        }
        found.push(
            DiscoveredEntry {
                path: visit.path.copy(),
                depth: visit.depth,
                file_type: visit.kind,
            },
        );
        proof {
            let visits = child_visits(parent, model);
            assert(visits.skip(0) =~= visits);
            assert(found.deep_view() =~= shown.push(parent.entry()));
            assert(coming[0] == parent);
            assert(coming.drop_first() =~= later);
            let grown = log.push(model);
            assert forall|more: Seq<Seq<(Seq<u8>, EntryType)>>| #[trigger]
                visit_all(seq![first], grown + more) == found.deep_view() + visit_all(
                    upcoming(None, pending@),
                    more,
                ) by {
                let extended = seq![model] + more;
                assert(grown + more =~= log + extended);
                assert(extended[0] == model);
                assert(extended.drop_first() =~= more);
                assert(visit_all(seq![first], log + extended) == shown + visit_all(
                    coming,
                    extended,
                ));
                assert(shown + (seq![parent.entry()] + visit_all(visits + later, more))
                    =~= shown.push(parent.entry()) + visit_all(visits + later, more));
            }
        }
        *self = Walk {
            root,
            since,
            current: None,
            pending,
            found,
            listings: Ghost(listings@.push(model)),
            start,
        };
    }

    /// The key of the current directory, if it can be stored.
    fn key(&self) -> (key: Option<DirectoryKey>)
        ensures
            key.deep_view() == self.state().key(),
    {
        broadcast use lemma_bytes_model;

        match &self.current {
            Some(visit) => match (
                encode_path(self.root.bytes().as_slice()),
                encode_path(visit.relative.as_slice()),
            ) {
                (Some(root), Some(relative)) => Some((root, relative)),
                _ => None,
            },
            None => None,
        }
    }

    /// The entries of the walk, if it visited everything.
    fn into_entries(self) -> (entries: Option<Vec<DiscoveredEntry>>)
        ensures
            match entries {
                Some(found) => self.state().finished() && found.deep_view() == visit_all(
                    seq![self.start()],
                    self.state().listings,
                ),
                None => !self.state().finished(),
            },
    {
        proof {
            use_type_invariant(&self);
        }
        if self.current.is_some() || self.pending.len() > 0 {
            return None;
        }
        proof {
            let none = Seq::<Seq<(Seq<u8>, EntryType)>>::empty();
            assert(self.listings@ + none =~= self.listings@);
            assert(visit_all(seq![self.start@], self.listings@ + none) == self.found.deep_view()
                + visit_all(upcoming(self.current, self.pending@), none));
            assert(self.found.deep_view() + visit_all(
                upcoming(self.current, self.pending@),
                none,
            ) =~= self.found.deep_view());
        }
        Some(self.found)
    }
}

/// A directory stayed the same while it was looked at: it was open, its stamp was known, and
/// both the open directory and the path, opened again, still show that stamp.
pub open spec fn stayed(
    anchored: bool,
    before: Option<Stamp>,
    again: Option<Stamp>,
    reopened: Option<Stamp>,
) -> bool {
    anchored && before is Some && again == before && reopened == before
}

/// Whether a directory stayed the same while it was looked at.
pub fn stable(
    anchored: bool,
    before: Option<Stamp>,
    again: Option<Stamp>,
    reopened: Option<Stamp>,
) -> (result: bool)
    ensures
        result == stayed(anchored, before, again, reopened),
{
    anchored && before.is_some() && again.same(&before) && reopened.same(&before)
}

/// What is known of a directory before it is listed.
pub struct Lookup {
    /// Its stamp can be relied on.
    pub eligible: bool,
    /// The children on record under the same stamp.
    pub cached: Option<Vec<(Vec<u8>, EntryType)>>,
}

/// The number of directories among the entries.
pub open spec fn directories_among(entries: Seq<DiscoveredEntry>) -> nat
    decreases entries.len(),
{
    if entries.len() == 0 {
        0
    } else {
        directories_among(entries.drop_last()) + (if entries.last().file_type
            == EntryType::Directory {
            1nat
        } else {
            0nat
        })
    }
}

/// The sum, up to the largest count.
pub open spec fn capped_sum(count: usize, more: nat) -> usize {
    if count + more <= usize::MAX {
        (count + more) as usize
    } else {
        usize::MAX
    }
}

/// Cached and newly made listings, and what may be done with them.
pub struct DiscoveryInventory {
    previous: Listings,
    next: Listings,
    projection: Vec<u8>,
    epoch: Option<Epoch>,
    started: Option<Timestamp>,
    counters: InventoryCounters,
    collecting: bool,
    stored_children: usize,
    stored_bytes: usize,
    walk_failed: bool,
}

impl DiscoveryInventory {
    /// What the inventory knows.
    pub closed spec fn state(&self) -> InventoryState {
        InventoryState {
            previous: self.previous.deep_view(),
            next: self.next.deep_view(),
            projection: self.projection@,
            epoch: self.epoch,
            started: self.started,
            counters: self.counters,
            collecting: self.collecting,
            failed: self.walk_failed,
        }
    }

    #[verifier::type_invariant]
    spec fn well_formed(&self) -> bool {
        self.collecting ==> {
            &&& within_limits(self.next.deep_view(), self.projection@.len())
            &&& self.projection@.len() <= MAX_PROJECTION_BYTES
            &&& self.stored_children == total(self.next.deep_view(), child_weight())
            &&& self.stored_bytes == self.projection@.len() + total(
                self.next.deep_view(),
                byte_weight(),
            )
        }
    }

    /// Starts a request from the inventory that an earlier one left, if that is admissible in
    /// the epoch and at the time that were observed.
    pub fn with_observer(
        previous: Option<DirectoryInventory>,
        projection: &[u8],
        epoch: Option<Epoch>,
        started: Option<Timestamp>,
    ) -> (inventory: Self)
        ensures
            inventory.state() == begun(previous, projection@, epoch, started),
            inventory.state() == (InventoryState {
                previous: loaded(previous, projection@, epoch, started),
                next: Map::empty(),
                projection: projection@,
                epoch,
                started,
                counters: zero_counters(),
                collecting: projection@.len() <= MAX_PROJECTION_BYTES,
                failed: false,
            }),
    {
        let mut listings: Listings = SortedMap::new();
        if let (Some(previous), Some(epoch), Some(now)) = (&previous, &epoch, started) {
            if previous.valid(projection, epoch, now) {
                assert(ranges_inside(previous.directories.0@, previous.children.0@.len())) by {
                    let directories = previous.directories.0@;
                    assert forall|i: int| 0 <= i < directories.len() implies (
                    #[trigger] directories[i]).start + directories[i].len
                        <= previous.children.0@.len() by {
                        assert(children_before(directories, i + 1) == children_before(
                            directories,
                            i,
                        ) + directories[i].len);
                    }
                }
                listings = load_listings(previous);
            }
        }
        let next: Listings = SortedMap::new();
        let projection = copy_bytes(projection);
        let stored_bytes = projection.len();
        proof {
            assert(next.deep_view().dom() =~= Set::empty());
        }
        DiscoveryInventory {
            previous: listings,
            next,
            epoch,
            started,
            counters: InventoryCounters::default(),
            collecting: projection.len() <= MAX_PROJECTION_BYTES,
            stored_children: 0,
            stored_bytes,
            walk_failed: false,
            projection,
        }
    }

    /// How often the steps of the walks were taken.
    pub fn counters(&self) -> (counters: InventoryCounters)
        ensures
            counters == self.state().counters,
    {
        self.counters
    }

    fn invalidate(&mut self)
        ensures
            final(self).state() == old(self).state().invalidated(),
    {
        self.collecting = false;
        self.previous = SortedMap::new();
        self.next = SortedMap::new();
    }

    /// Decides whether the walk below `root` may use the inventory, and notes the time it
    /// starts at. An absolute root that may not leaves the inventory without listings.
    pub fn admit_walk(
        &mut self,
        root: &FilePath,
        epoch: Option<Epoch>,
        now: Option<Timestamp>,
    ) -> (admitted: Option<Timestamp>)
        ensures
            admitted is Some == (absolute(root.spelling()) && old(self).state().admits(epoch, now)),
            ({
                let before = old(self).state();
                if !absolute(root.spelling()) {
                    admitted is None && final(self).state() == before
                } else if epoch is None || epoch != before.epoch || now is None || observed_earlier(
                    now,
                    before.started,
                ) || !before.collecting {
                    admitted is None && final(self).state() == before.invalidated()
                } else {
                    &&& admitted == now
                    &&& final(self).state() == InventoryState {
                        counters: InventoryCounters {
                            metadata_checks: one_more(before.counters.metadata_checks),
                            ..before.counters
                        },
                        ..before
                    }
                }
            }),
    {
        proof {
            use_type_invariant(&*self);
        }
        if !root.is_absolute() {
            return None;
        }
        if epoch.is_none() || !epoch.same(&self.epoch) || is_observed_earlier(now, self.started)
            || now.is_none() || !self.collecting {
            self.invalidate();
            return None;
        }
        self.counters.metadata_checks = count_up(self.counters.metadata_checks);
        now
    }

    /// Starts the walk below a root of this kind. A root that is missing or a symbolic link is
    /// not walked here.
    pub fn start_walk(
        &mut self,
        root: FilePath,
        since: Timestamp,
        kind: Option<EntryType>,
    ) -> (walk: Option<Walk>)
        ensures
            match walk {
                None => final(self).state() == old(self).state() && (kind is None || kind == Some(
                    EntryType::Symlink,
                )),
                Some(walk) => {
                    &&& kind matches Some(found) && found != EntryType::Symlink && walk.start() == (
                    Visit {
                        path: root.spelling(),
                        relative: Seq::empty(),
                        depth: 0,
                        kind: found,
                    })
                    &&& walk.state() == (WalkState {
                        root: root.spelling(),
                        since,
                        current: None,
                        pending: seq![walk.start()],
                        listings: Seq::empty(),
                    })
                    &&& final(self).state() == InventoryState {
                        failed: false,
                        ..old(self).state()
                    }
                },
            },
    {
        proof {
            use_type_invariant(&*self);
        }
        match kind {
            None => None,
            Some(EntryType::Symlink) => None,
            Some(kind) => {
                self.walk_failed = false;
                let walk = Walk::begin(root, since, kind);
                assert(walk.state().listings =~= Seq::empty());
                Some(walk)
            },
        }
    }

    /// Looks the current directory of a walk up, given the stamp and the time that were
    /// observed.
    pub fn look_up(&mut self, walk: &Walk, before: Option<Stamp>, now: Option<Timestamp>) -> (lookup:
        Lookup)
        ensures
            final(self).state() == (InventoryState {
                counters: InventoryCounters {
                    directories_checked: one_more(old(self).state().counters.directories_checked),
                    ..old(self).state().counters
                },
                ..old(self).state()
            }),
            lookup.eligible == is_eligible(before, now),
            lookup.cached.deep_view() == old(self).state().reusable(
                walk.state().key(),
                before,
                now,
            ),
    {
        proof {
            use_type_invariant(&*self);
        }
        self.counters.directories_checked = count_up(self.counters.directories_checked);
        let eligible = match (&before, now) {
            (Some(stamp), Some(now)) => stamp.eligible(now),
            _ => false,
        };
        let mut cached: Option<Vec<(Vec<u8>, EntryType)>> = None;
        if let (Some(key), Some(stamp)) = (walk.key(), before) {
            let recorded = match self.next.get(&key) {
                Some(listing) => Some(listing),
                None => self.previous.get(&key),
            };
            if let Some(listing) = recorded {
                if eligible && listing.0.same(&stamp) {
                    cached = Some(plain_children(&listing.1));
                }
            }
        }
        Lookup { eligible, cached }
    }

    /// Decides whether the children on record are used for the current directory of a walk,
    /// and uses them if so: there have to be some, and the directory has to have stayed the same
    /// while it was looked at. It did if it was open, its stamp was known, and both the open
    /// directory and the path, opened again, still show that stamp.
    pub fn settle(
        &mut self,
        walk: &mut Walk,
        before: Option<Stamp>,
        lookup: &Lookup,
        anchored: bool,
        again: Option<Stamp>,
        reopened: Option<Stamp>,
    ) -> (reused: bool)
        ensures
            reused == (lookup.cached is Some && stayed(anchored, before, again, reopened)),
            final(walk).start() == old(walk).start(),
            match lookup.cached {
                Some(cached) if reused => {
                    &&& final(walk).state() == old(walk).state().descended(cached.deep_view())
                    &&& final(self).state() == old(self).state().reused().stored(
                        old(walk).state().key(),
                        before,
                        cached.deep_view(),
                    )
                },
                _ => {
                    &&& final(walk).state() == old(walk).state()
                    &&& final(self).state() == old(self).state()
                },
            },
    {
        match &lookup.cached {
            Some(cached) => {
                if stable(anchored, before, again, reopened) {
                    self.reuse(walk, before, cached);
                    true
                } else {
                    false
                }
            },
            None => false,
        }
    }

    fn reuse(
        &mut self,
        walk: &mut Walk,
        before: Option<Stamp>,
        cached: &Vec<(Vec<u8>, EntryType)>,
    )
        ensures
            final(walk).start() == old(walk).start(),
            final(walk).state() == old(walk).state().descended(cached.deep_view()),
            final(self).state() == old(self).state().reused().stored(
                old(walk).state().key(),
                before,
                cached.deep_view(),
            ),
    {
        proof {
            use_type_invariant(&*self);
        }
        let key = walk.key();
        walk.descend(cached);
        self.counters.directories_reused = count_up(self.counters.directories_reused);
        self.store(key, before, stored_children(cached));
    }

    /// Uses the names that the current directory of a walk was found to hold, or notes that it
    /// could not be listed. The listing is kept only if the directory was eligible and stayed
    /// the same while it was listed, and if every name can be stored; an eligible directory that
    /// changed meanwhile makes the walk fail.
    pub fn enumerated(
        &mut self,
        walk: &mut Walk,
        before: Option<Stamp>,
        lookup: &Lookup,
        names: Option<Vec<(Vec<u8>, EntryType)>>,
        anchored: bool,
        again: Option<Stamp>,
        reopened: Option<Stamp>,
    )
        ensures
            final(walk).start() == old(walk).start(),
            match names {
                None => {
                    &&& final(self).state() == old(self).state().listed().with_failure()
                    &&& final(walk).state() == old(walk).state().descended(Seq::empty())
                },
                Some(names) => {
                    let listing = names.deep_view();
                    let listed = old(self).state().listed();
                    &&& final(walk).state() == old(walk).state().descended(listing)
                    &&& final(self).state() == (if !lookup.eligible {
                        listed
                    } else if !stayed(anchored, before, again, reopened) {
                        listed.with_failure()
                    } else if all_names_valid(listing) {
                        listed.stored(old(walk).state().key(), before, listing)
                    } else {
                        listed
                    })
                },
            },
    {
        proof {
            use_type_invariant(&*self);
        }
        self.counters.directories_enumerated = count_up(self.counters.directories_enumerated);
        let names = match names {
            Some(names) => names,
            None => {
                self.walk_failed = true;
                let nothing: Vec<(Vec<u8>, EntryType)> = Vec::new();
                assert(nothing.deep_view() =~= Seq::empty());
                walk.descend(&nothing);
                return ;
            },
        };
        let key = walk.key();
        walk.descend(&names);
        if lookup.eligible {
            if !stable(anchored, before, again, reopened) {
                self.walk_failed = true;
                return ;
            }
            if let Some(children) = encode_children(&names) {
                self.store(key, before, children);
            }
        }
    }

    /// Records the listing of a directory in place of an earlier one, as long as the inventory
    /// keeps its limits.
    pub fn store(&mut self, key: Option<DirectoryKey>, stamp: Option<Stamp>, children: Vec<Child>)
        ensures
            final(self).state().bounded(),
            final(self).state() == old(self).state().stored(
                key.deep_view(),
                stamp,
                children.deep_view(),
            ),
    {
        proof {
            use_type_invariant(&*self);
        }
        let (key, stamp) = match (key, stamp) {
            (Some(key), Some(stamp)) => (key, stamp),
            _ => {
                return ;
            },
        };
        if !self.collecting {
            return ;
        }
        let ghost before = self.state();
        let ghost model = key.deep_view();
        let ghost listing = (stamp, children.deep_view());
        let ghost others = before.next.remove(model);
        let mut next: Listings = SortedMap::new();
        let mut stored_children = self.stored_children;
        let mut stored_bytes = self.stored_bytes;
        let collecting = self.collecting;
        self.collecting = false;
        std::mem::swap(&mut next, &mut self.next);
        assert(others.dom().finite());
        if let Some((_, old_children)) = next.remove(&key) {
            proof {
                lemma_total_remove(before.next, child_weight(), model);
                lemma_total_remove(before.next, byte_weight(), model);
            }
            stored_children = stored_children - old_children.len();
            stored_bytes = stored_bytes - sum_bytes(&key, &old_children);
        } else {
            assert(others =~= before.next);
        }
        let count = next.len();
        proof {
            lemma_total_insert(others, child_weight(), model, listing);
            lemma_total_insert(others, byte_weight(), model, listing);
            assert(others.insert(model, listing).dom() =~= others.dom().insert(model));
        }
        let bytes = sum_bytes(&key, &children);
        if count == MAX_DIRECTORIES || stored_children.saturating_add(children.len())
            > MAX_CHILDREN || stored_bytes.saturating_add(bytes) > MAX_TOTAL_BYTES {
            self.invalidate();
            return ;
        }
        stored_children = stored_children + children.len();
        stored_bytes = stored_bytes + bytes;
        next.insert(key, (stamp, children));
        self.next = next;
        self.stored_children = stored_children;
        self.stored_bytes = stored_bytes;
        self.collecting = collecting;
    }

    /// Ends a walk, given the epoch and the time that are observed at its end. The entries are
    /// handed out only if nothing failed and neither the epoch nor the clock went astray; else
    /// the inventory is left without listings.
    pub fn end_walk(
        &mut self,
        walk: Walk,
        epoch: Option<Epoch>,
        now: Option<Timestamp>,
    ) -> (entries: Option<Vec<DiscoveredEntry>>)
        ensures
            entries is Some == (walk.state().finished() && old(self).state().trusts(
                walk.state().since,
                epoch,
                now,
            )),
            ({
                let before = old(self).state();
                let trusted = walk.state().finished() && !before.failed && epoch == before.epoch
                    && !observed_earlier(now, Some(walk.state().since));
                match entries {
                    Some(found) => {
                        &&& trusted
                        &&& final(self).state() == before
                        &&& found.deep_view() == visit_all(
                            seq![walk.start()],
                            walk.state().listings,
                        )
                    },
                    None => !trusted && final(self).state() == before.invalidated(),
                }
            }),
    {
        let since = walk.since;
        let entries = walk.into_entries();
        if entries.is_none() || self.walk_failed || !epoch.same(&self.epoch) || is_observed_earlier(
            now,
            Some(since),
        ) {
            self.invalidate();
            return None;
        }
        entries
    }

    /// Counts a walk that did not use the inventory.
    pub fn record_full_walk(&mut self, entries: &Vec<DiscoveredEntry>)
        ensures
            final(self).state() == (InventoryState {
                counters: InventoryCounters {
                    fallback_walks: one_more(old(self).state().counters.fallback_walks),
                    directories_enumerated: capped_sum(
                        old(self).state().counters.directories_enumerated,
                        directories_among(entries@),
                    ),
                    ..old(self).state().counters
                },
                ..old(self).state()
            }),
    {
        proof {
            use_type_invariant(&*self);
        }
        let mut enumerated = self.counters.directories_enumerated;
        let ghost before = self.counters.directories_enumerated;
        let mut i: usize = 0;
        assert(entries@.take(0) =~= Seq::empty());
        while i < entries.len()
            invariant
                i <= entries@.len(),
                enumerated == capped_sum(before, directories_among(entries@.take(i as int))),
            decreases entries@.len() - i,
        {
            proof {
                assert(entries@.take(i + 1).drop_last() =~= entries@.take(i as int));
            }
            if entries[i].file_type == EntryType::Directory {
                enumerated = count_up(enumerated);
            }
            i += 1;
        }
        assert(entries@.take(i as int) =~= entries@);
        self.counters.fallback_walks = count_up(self.counters.fallback_walks);
        self.counters.directories_enumerated = enumerated;
    }

    /// The inventory to leave for the next request, given the epoch and the time that are
    /// observed at the end of this one. There is none where nothing was kept, where the epoch
    /// is unknown or changed, and where the clock is unknown or went back.
    pub fn finish(self, epoch: Option<Epoch>, observed: Option<Timestamp>) -> (inventory: Option<
        DirectoryInventory,
    >)
        ensures
            inventory is Some == self.state().worth_keeping(epoch, observed),
            ({
                let state = self.state();
                let kept = state.collecting && state.next.dom().len() > 0 && state.epoch is Some
                    && epoch == state.epoch && observed is Some && !observed_earlier(
                    observed,
                    state.started,
                );
                match inventory {
                    None => !kept,
                    Some(inventory) => {
                        &&& kept
                        &&& inventory.version == VERSION
                        &&& inventory.projection.0@ == state.projection
                        &&& Some(inventory.epoch) == state.epoch
                        &&& Some(inventory.observed) == observed
                        &&& arranged(inventory)
                        &&& listings_of(inventory) == state.next
                    },
                }
            }),
    {
        proof {
            use_type_invariant(&self);
        }
        let count = self.next.len();
        if !self.collecting || count == 0 || !epoch.same(&self.epoch) {
            return None;
        }
        let observed = match observed {
            Some(observed) => observed,
            None => {
                return None;
            },
        };
        if is_observed_earlier(Some(observed), self.started) {
            return None;
        }
        let epoch = match self.epoch {
            Some(epoch) => epoch,
            None => {
                return None;
            },
        };
        let (directories, children) = flatten(&self.next);
        proof {
            let keys = self.next.keys();
            let values = self.next.values();
            assert(keys.take(count as int) =~= keys);
            assert(values.take(count as int) =~= values);
            lemma_flattened_listings(directories@, children@, keys, values, count as int);
            lemma_flattened_totals(directories@, children@, keys, values, count as int);
            assert forall|i: int, j: int|
                0 <= i < j < directories@.len() implies crate::order::rank_before(
                <DirectoryKey as crate::sorted::Ordered>::rank_of((#[trigger] directories@[i]).key()),
                <DirectoryKey as crate::sorted::Ordered>::rank_of((#[trigger] directories@[j]).key()),
            ) by {
                assert(directories@[i].key() == keys[i] && directories@[j].key() == keys[j]);
            }
        }
        Some(
            DirectoryInventory {
                version: VERSION,
                projection: BoundedVec(self.projection),
                epoch,
                observed,
                directories: BoundedVec(directories),
                children: BoundedVec(children),
            },
        )
    }
}

/// The directories of an inventory are sorted by their keys, take their children from
/// consecutive ranges, and keep within the limits.
pub open spec fn arranged(inventory: DirectoryInventory) -> bool {
    let directories = inventory.directories.0@;
    let children = inventory.children.0@;
    &&& directories.len() <= MAX_DIRECTORIES
    &&& children.len() <= MAX_CHILDREN
    &&& forall|i: int, j: int|
        0 <= i < j < directories.len() ==> crate::order::rank_before(
            <DirectoryKey as crate::sorted::Ordered>::rank_of((#[trigger] directories[i]).key()),
            <DirectoryKey as crate::sorted::Ordered>::rank_of((#[trigger] directories[j]).key()),
        )
    &&& forall|i: int|
        0 <= i < directories.len() ==> (#[trigger] directories[i]).start == children_before(
            directories,
            i,
        )
    &&& children_before(directories, directories.len() as int) == children.len()
    &&& inventory.projection.0@.len() + path_bytes_before(directories, directories.len() as int)
        + name_bytes_before(children, children.len() as int) <= MAX_TOTAL_BYTES
}

/// The first `n` directories stand for the listings of `keys` and `values`.
spec fn flattened(
    directories: Seq<Directory>,
    children: Seq<Child>,
    keys: Seq<(Seq<u8>, Seq<u8>)>,
    values: Seq<ListingModel>,
    n: int,
) -> bool {
    forall|i: int|
        #![trigger directories[i]]
        0 <= i < n ==> {
            &&& directories[i].key() == keys[i]
            &&& directories[i].stamp == values[i].0
            &&& directories[i].len == values[i].1.len()
            &&& directories[i].start == children_before(directories, i)
            &&& directories[i].start + directories[i].len <= children.len()
            &&& models_of(children).subrange(
                directories[i].start as int,
                directories[i].start + directories[i].len,
            ) == values[i].1
        }
}

spec fn models_of(children: Seq<Child>) -> Seq<(Seq<u8>, EntryType)> {
    Seq::new(children.len(), |i: int| children[i].deep_view())
}

proof fn lemma_children_before_prefix(directories: Seq<Directory>, more: Directory, n: int)
    requires
        n <= directories.len(),
    ensures
        children_before(directories.push(more), n) == children_before(directories, n),
    decreases n,
{
    if n > 0 {
        lemma_children_before_prefix(directories, more, n - 1);
    }
}

proof fn lemma_paired_step<K, V>(keys: Seq<K>, values: Seq<V>, n: int)
    requires
        0 < n <= keys.len(),
        keys.len() == values.len(),
        keys.no_duplicates(),
    ensures
        paired(keys.take(n), values.take(n)) == paired(keys.take(n - 1), values.take(n - 1)).insert(
            keys[n - 1],
            values[n - 1],
        ),
        !paired(keys.take(n - 1), values.take(n - 1)).contains_key(keys[n - 1]),
        paired(keys.take(n - 1), values.take(n - 1)).dom().finite(),
{
    let longer = keys.take(n);
    let shorter = keys.take(n - 1);
    let left = paired(longer, values.take(n));
    let right = paired(shorter, values.take(n - 1)).insert(keys[n - 1], values[n - 1]);
    assert(shorter.to_set().finite()) by {
        vstd::seq_lib::seq_to_set_is_finite(shorter);
    }
    assert(paired(shorter, values.take(n - 1)).dom() =~= shorter.to_set());
    assert forall|key: K| left.contains_key(key) == right.contains_key(key) by {
        if longer.contains(key) {
            let i = choose|i: int| 0 <= i < longer.len() && longer[i] == key;
            if i < n - 1 {
                assert(shorter[i] == key);
            }
        }
        if shorter.contains(key) {
            let i = choose|i: int| 0 <= i < shorter.len() && shorter[i] == key;
            assert(longer[i] == key);
        }
        if key == keys[n - 1] {
            assert(longer[n - 1] == key);
        }
    }
    assert forall|key: K| left.contains_key(key) implies left[key] == right[key] by {
        let i = longer.index_of(key);
        assert(longer[i] == key);
        if i < n - 1 {
            assert(shorter[i] == key);
            assert(shorter.contains(key));
            let j = shorter.index_of(key);
            assert(shorter[j] == key);
            assert(keys[i] == keys[j]);
        }
    }
    assert(left =~= right);
    if shorter.contains(keys[n - 1]) {
        let i = choose|i: int| 0 <= i < shorter.len() && shorter[i] == keys[n - 1];
        assert(keys[i] == keys[n - 1]);
    }
}

proof fn lemma_flattened_listings(
    directories: Seq<Directory>,
    children: Seq<Child>,
    keys: Seq<(Seq<u8>, Seq<u8>)>,
    values: Seq<ListingModel>,
    n: int,
)
    requires
        0 <= n <= keys.len(),
        n <= directories.len(),
        keys.len() == values.len(),
        keys.no_duplicates(),
        flattened(directories, children, keys, values, n),
    ensures
        listings_upto(directories, models_of(children), n) == paired(keys.take(n), values.take(n)),
    decreases n,
{
    if n > 0 {
        lemma_flattened_listings(directories, children, keys, values, n - 1);
        lemma_paired_step(keys, values, n);
        assert(directories[n - 1].key() == keys[n - 1]);
    } else {
        assert(listings_upto(directories, models_of(children), n) =~= paired(
            keys.take(n),
            values.take(n),
        ));
    }
}

proof fn lemma_name_bytes(children: Seq<Child>, start: int, end: int)
    requires
        0 <= start <= end <= children.len(),
    ensures
        name_bytes_before(children, end) == name_bytes_before(children, start) + names_len(
            models_of(children).subrange(start, end),
        ),
    decreases end - start,
{
    let models = models_of(children);
    if start < end {
        lemma_name_bytes(children, start, end - 1);
        assert(models.subrange(start, end).drop_last() =~= models.subrange(start, end - 1));
        assert(models.subrange(start, end).last() == models[end - 1]);
    } else {
        assert(models.subrange(start, end).len() == 0);
    }
}

proof fn lemma_flattened_totals(
    directories: Seq<Directory>,
    children: Seq<Child>,
    keys: Seq<(Seq<u8>, Seq<u8>)>,
    values: Seq<ListingModel>,
    n: int,
)
    requires
        0 <= n <= keys.len(),
        n <= directories.len(),
        keys.len() == values.len(),
        keys.no_duplicates(),
        flattened(directories, children, keys, values, n),
    ensures
        total(paired(keys.take(n), values.take(n)), child_weight()) == children_before(
            directories,
            n,
        ),
        total(paired(keys.take(n), values.take(n)), byte_weight()) == path_bytes_before(
            directories,
            n,
        ) + name_bytes_before(children, children_before(directories, n)),
    decreases n,
{
    if n > 0 {
        lemma_flattened_totals(directories, children, keys, values, n - 1);
        lemma_paired_step(keys, values, n);
        let shorter = paired(keys.take(n - 1), values.take(n - 1));
        lemma_total_insert(shorter, child_weight(), keys[n - 1], values[n - 1]);
        lemma_total_insert(shorter, byte_weight(), keys[n - 1], values[n - 1]);
        let directory = directories[n - 1];
        lemma_name_bytes(children, directory.start as int, directory.start + directory.len);
    } else {
        assert(paired(keys.take(n), values.take(n)).dom() =~= Set::empty());
    }
}

fn flatten(listings: &Listings) -> (flat: (Vec<Directory>, Vec<Child>))
    ensures
        flat.0@.len() == listings.keys().len(),
        flattened(
            flat.0@,
            flat.1@,
            listings.keys(),
            listings.values(),
            listings.keys().len() as int,
        ),
        children_before(flat.0@, flat.0@.len() as int) == flat.1@.len(),
{
    broadcast use lemma_bytes_model;

    let count = listings.len();
    let ghost keys = listings.keys();
    let ghost values = listings.values();
    let mut directories: Vec<Directory> = Vec::new();
    let mut children: Vec<Child> = Vec::new();
    let mut index: usize = 0;
    while index < count
        invariant
            index <= count,
            count == keys.len(),
            keys == listings.keys(),
            values == listings.values(),
            directories@.len() == index,
            children_before(directories@, index as int) == children@.len(),
            flattened(directories@, children@, keys, values, index as int),
        decreases count - index,
    {
        let key = listings.key_at(index);
        let value = listings.value_at(index);
        proof {
            lemma_bytes_model(key.0);
            lemma_bytes_model(key.1);
        }
        let directory = Directory {
            root: BoundedVec(copy_bytes(key.0.as_slice())),
            relative: BoundedVec(copy_bytes(key.1.as_slice())),
            stamp: value.0,
            start: children.len(),
            len: value.1.len(),
        };
        let ghost before = directories@;
        let ghost earlier_children = children@;
        let listing = &value.1;
        assert(listing.deep_view() == values[index as int].1);
        let mut i: usize = 0;
        while i < listing.len()
            invariant
                i <= listing@.len(),
                children@.len() == earlier_children.len() + i,
                forall|k: int|
                    0 <= k < earlier_children.len() ==> children@[k] == earlier_children[k],
                forall|k: int|
                    #![trigger children@[earlier_children.len() + k]]
                    0 <= k < i ==> children@[earlier_children.len() + k].deep_view()
                        == listing@[k].deep_view(),
            decreases listing@.len() - i,
        {
            children.push(listing[i].duplicate());
            i += 1;
        }
        directories.push(directory);
        proof {
            assert forall|k: int| #![trigger directories@[k]] 0 <= k < index + 1 implies {
                &&& directories@[k].key() == keys[k]
                &&& directories@[k].stamp == values[k].0
                &&& directories@[k].len == values[k].1.len()
                &&& directories@[k].start == children_before(directories@, k)
                &&& directories@[k].start + directories@[k].len <= children@.len()
                &&& models_of(children@).subrange(
                    directories@[k].start as int,
                    directories@[k].start + directories@[k].len,
                ) == values[k].1
            } by {
                lemma_children_before_prefix(before, directory, k);
                let from = directories@[k].start as int;
                let to = directories@[k].start + directories@[k].len;
                if k < index {
                    assert(directories@[k] == before[k]);
                    assert(models_of(children@).subrange(from, to) =~= models_of(
                        earlier_children,
                    ).subrange(from, to));
                } else {
                    assert(directories@[k] == directory);
                    let range = models_of(children@).subrange(from, to);
                    assert forall|m: int| 0 <= m < range.len() implies range[m]
                        == values[k].1[m] by {
                        assert(range[m] == children@[earlier_children.len() + m].deep_view());
                        assert(values[k].1[m] == listing@[m].deep_view());
                    }
                    assert(range =~= values[k].1);
                }
            }
            lemma_children_before_prefix(before, directory, index as int);
        }
        index += 1;
    }
    (directories, children)
}

/// Every listing can be admitted at `now`: its key is a root and a path of names below it, its
/// names are valid and occur once, and its stamp can be relied on.
pub open spec fn restorable(listings: ListingsModel, now: Timestamp) -> bool {
    forall|key: (Seq<u8>, Seq<u8>)| #[trigger]
        listings.contains_key(key) ==> {
            &&& storable_path(key.0)
            &&& storable_path(key.1)
            &&& absolute(key.0)
            &&& crate::path::only_names(crate::path::byte_parts(key.1))
            &&& listings[key].0.is_eligible(now)
            &&& all_names_valid(listings[key].1)
            &&& forall|i: int, j: int|
                0 <= i < j < listings[key].1.len() ==> (#[trigger] listings[key].1[i]).0 != (
                #[trigger] listings[key].1[j]).0
        }
}

proof fn lemma_listing_of_directory(
    directories: Seq<Directory>,
    children: Seq<(Seq<u8>, EntryType)>,
    n: int,
    i: int,
)
    requires
        0 <= i < n <= directories.len(),
        forall|a: int, b: int|
            0 <= a < b < directories.len() ==> (#[trigger] directories[a]).key() != (
            #[trigger] directories[b]).key(),
    ensures
        listings_upto(directories, children, n).contains_key(directories[i].key()),
        listings_upto(directories, children, n)[directories[i].key()] == (
            directories[i].stamp,
            children.subrange(
                directories[i].start as int,
                directories[i].start + directories[i].len,
            ),
        ),
    decreases n,
{
    if i < n - 1 {
        lemma_listing_of_directory(directories, children, n - 1, i);
        assert(directories[i].key() != directories[n - 1].key());
    }
}

proof fn lemma_arranged_keys_distinct(inventory: DirectoryInventory)
    requires
        arranged(inventory),
    ensures
        keys_distinct(
            inventory.directories.0@,
            inventory.directories.0@.len() as int,
        ),
{
    let directories = inventory.directories.0@;
    assert forall|i: int, j: int| 0 <= i < j < directories.len() implies (
    #[trigger] directories[i]).key() != (#[trigger] directories[j]).key() by {
        let left = <DirectoryKey as crate::sorted::Ordered>::rank_of(directories[i].key());
        crate::order::lemma_rank_order(left, left, left);
        if directories[i].key() == directories[j].key() {
            assert(crate::order::rank_before(left, left));
        }
    }
}

proof fn lemma_children_before_le(directories: Seq<Directory>, i: int, n: int)
    requires
        0 <= i <= n <= directories.len(),
    ensures
        0 <= children_before(directories, i) <= children_before(directories, n),
    decreases n,
{
    if n > i {
        lemma_children_before_le(directories, i, n - 1);
    } else if n > 0 {
        lemma_children_before_le(directories, i - 1, n - 1);
    }
}

proof fn lemma_restored_directory(inventory: DirectoryInventory, now: Timestamp, i: int)
    requires
        arranged(inventory),
        restorable(listings_of(inventory), now),
        0 <= i < inventory.directories.0@.len(),
    ensures
        directory_admissible(inventory.directories.0@[i], now),
        inventory.directories.0@[i].start == children_before(inventory.directories.0@, i),
        children_before(inventory.directories.0@, i + 1) <= inventory.children.0@.len(),
        names_admissible(
            inventory.children.0@,
            children_before(inventory.directories.0@, i),
            children_before(inventory.directories.0@, i + 1),
        ),
{
    let directories = inventory.directories.0@;
    let children = inventory.children.0@;
    let models = inventory.children.0.deep_view();
    let count = directories.len() as int;
    lemma_arranged_keys_distinct(inventory);
    lemma_children_before_le(directories, i, count);
    lemma_children_before_le(directories, i + 1, count);
    lemma_listing_of_directory(directories, models, count, i);
    let key = directories[i].key();
    let listing = listings_of(inventory)[key];
    let start = children_before(directories, i);
    let end = children_before(directories, i + 1);
    assert(listings_of(inventory).contains_key(key));
    assert(end == start + directories[i].len);
    assert forall|k: int| start <= k < end implies is_valid_name(
        (#[trigger] children[k]).name.0@,
    ) by {
        assert(listing.1[k - start] == models[k]);
        assert(models[k] == children[k].deep_view());
    }
    assert forall|a: int, b: int| start <= a < b < end implies (#[trigger] children[a]).name.0@ != (
    #[trigger] children[b]).name.0@ by {
        assert(listing.1[a - start] == models[a] && models[a] == children[a].deep_view());
        assert(listing.1[b - start] == models[b] && models[b] == children[b].deep_view());
    }
}

/// What one request leaves is what the next one starts from: an inventory whose listings can
/// be admitted is valid for the same projection and epoch, and loads to the same listings.
pub proof fn law_finished_inventory_is_restored(inventory: DirectoryInventory, now: Timestamp)
    requires
        inventory.version == VERSION,
        inventory.observed.is_valid(),
        !earlier(now, inventory.observed),
        arranged(inventory),
        restorable(listings_of(inventory), now),
    ensures
        loaded(Some(inventory), inventory.projection.0@, Some(inventory.epoch), Some(now))
            == listings_of(inventory),
{
    lemma_arranged_keys_distinct(inventory);
    let directories = inventory.directories.0@;
    let children = inventory.children.0@;
    let count = directories.len() as int;
    assert(directories_admissible(directories, children, now, count)) by {
        assert forall|i: int| #![trigger directories[i]] 0 <= i < count implies {
            &&& directory_admissible(directories[i], now)
            &&& directories[i].start == children_before(directories, i)
            &&& children_before(directories, i + 1) <= children.len()
            &&& names_admissible(
                children,
                children_before(directories, i),
                children_before(directories, i + 1),
            )
        } by {
            lemma_restored_directory(inventory, now, i);
        }
    }
}

/// An inventory made in another epoch or for another projection is of no use.
pub proof fn law_foreign_inventory_is_rejected(
    inventory: DirectoryInventory,
    projection: Seq<u8>,
    epoch: Option<Epoch>,
    now: Option<Timestamp>,
)
    requires
        Some(inventory.epoch) != epoch || inventory.projection.0@ != projection,
    ensures
        loaded(Some(inventory), projection, epoch, now) == ListingsModel::empty(),
{
}

/// A listing is reused only for the same directory under the same stamp, and only while that
/// stamp can be relied on. Whatever is on record for its ancestors plays no part.
pub proof fn law_reuse_rests_on_the_directory_itself(
    state: InventoryState,
    other: InventoryState,
    key: (Seq<u8>, Seq<u8>),
    before: Option<Stamp>,
    now: Option<Timestamp>,
)
    requires
        state.recorded(key) == other.recorded(key),
    ensures
        state.reusable(Some(key), before, now) == other.reusable(Some(key), before, now),
        state.reusable(Some(key), before, now) is Some ==> is_eligible(before, now)
            && state.recorded(key) is Some && before == Some(state.recorded(key).unwrap().0),
{
}

/// The listings are those that `tree` has for the directories met when `pending` is visited,
/// one for each of them.
pub open spec fn describes(
    pending: Seq<Visit>,
    listings: Seq<Seq<(Seq<u8>, EntryType)>>,
    tree: spec_fn(Seq<u8>) -> Seq<(Seq<u8>, EntryType)>,
) -> bool
    decreases listings.len(), pending.len(),
{
    if pending.len() == 0 {
        listings.len() == 0
    } else {
        let first = pending[0];
        let rest = pending.drop_first();
        if first.kind != EntryType::Directory {
            describes(rest, listings, tree)
        } else {
            listings.len() > 0 && listings[0] == tree(first.path) && describes(
                child_visits(first, listings[0]) + rest,
                listings.drop_first(),
                tree,
            )
        }
    }
}

/// Where the listings come from does not matter: two walks whose listings are those of the same
/// tree find the same entries in the same order, whichever of them were reused.
pub proof fn law_walks_of_one_tree_agree(
    pending: Seq<Visit>,
    left: Seq<Seq<(Seq<u8>, EntryType)>>,
    right: Seq<Seq<(Seq<u8>, EntryType)>>,
    tree: spec_fn(Seq<u8>) -> Seq<(Seq<u8>, EntryType)>,
)
    requires
        describes(pending, left, tree),
        describes(pending, right, tree),
    ensures
        left == right,
        visit_all(pending, left) == visit_all(pending, right),
    decreases left.len(), pending.len(),
{
    if pending.len() == 0 {
        assert(left =~= right);
    } else {
        let first = pending[0];
        let rest = pending.drop_first();
        if first.kind != EntryType::Directory {
            law_walks_of_one_tree_agree(rest, left, right, tree);
        } else {
            let below = child_visits(first, left[0]) + rest;
            law_walks_of_one_tree_agree(below, left.drop_first(), right.drop_first(), tree);
            assert(left =~= seq![left[0]] + left.drop_first());
            assert(right =~= seq![right[0]] + right.drop_first());
        }
    }
}

impl InventoryState {
    /// Every listing on record is what a directory of this key holds under this stamp, in any
    /// order.
    pub open spec fn truthful(
        self,
        contents: spec_fn((Seq<u8>, Seq<u8>), Stamp) -> Multiset<(Seq<u8>, EntryType)>,
    ) -> bool {
        &&& forall|key: (Seq<u8>, Seq<u8>)| #[trigger]
            self.previous.contains_key(key) ==> self.previous[key].1.to_multiset() == contents(
                key,
                self.previous[key].0,
            )
        &&& forall|key: (Seq<u8>, Seq<u8>)| #[trigger]
            self.next.contains_key(key) ==> self.next[key].1.to_multiset() == contents(
                key,
                self.next[key].0,
            )
    }
}

/// As long as a stamp that can be relied on tells what a directory holds, reuse shows what is
/// there: only such listings are recorded, whatever the inventory does keeps them, and the one
/// that is reused is what the directory holds.
pub proof fn law_reused_listings_are_true(
    state: InventoryState,
    contents: spec_fn((Seq<u8>, Seq<u8>), Stamp) -> Multiset<(Seq<u8>, EntryType)>,
    key: Option<(Seq<u8>, Seq<u8>)>,
    before: Option<Stamp>,
    now: Option<Timestamp>,
    children: Seq<(Seq<u8>, EntryType)>,
)
    requires
        state.truthful(contents),
        key is Some && before is Some ==> children.to_multiset() == contents(
            key.unwrap(),
            before.unwrap(),
        ),
    ensures
        state.reusable(key, before, now) matches Some(reused) ==> reused.to_multiset()
            == children.to_multiset(),
        state.stored(key, before, children).truthful(contents),
        state.invalidated().truthful(contents),
        state.with_failure().truthful(contents),
{
}

/// An unchanged directory is reused: where its listing is on record under the stamp that it
/// still has, and the stamp can be relied on, that listing is the one handed out. Using it
/// leaves the listings of all other directories on record, unless the limits make the inventory
/// give up its listings.
pub proof fn law_unchanged_directories_are_reused(
    state: InventoryState,
    key: (Seq<u8>, Seq<u8>),
    stamp: Stamp,
    now: Timestamp,
    other: (Seq<u8>, Seq<u8>),
)
    requires
        state.recorded(key) matches Some(listing) && listing.0 == stamp,
        stamp.is_eligible(now),
        other != key,
    ensures
        ({
            let children = state.recorded(key).unwrap().1;
            let after = state.reused().stored(Some(key), Some(stamp), children);
            &&& state.reusable(Some(key), Some(stamp), Some(now)) == Some(children)
            &&& after.counters.directories_reused == one_more(state.counters.directories_reused)
            &&& after.counters.directories_enumerated == state.counters.directories_enumerated
            &&& after.collecting == state.collecting ==> after.recorded(other) == state.recorded(
                other,
            ) && after.recorded(key) == state.recorded(key)
        }),
{
}

/// An inventory keeps its limits: a request starts within them, and nothing that is done to it
/// oversteps them. A listing that replaces an earlier one of the same directory counts once.
pub proof fn law_inventories_stay_within_their_limits(
    state: InventoryState,
    key: Option<(Seq<u8>, Seq<u8>)>,
    stamp: Option<Stamp>,
    children: Seq<(Seq<u8>, EntryType)>,
)
    ensures
        state.next == ListingsModel::empty() && (state.collecting ==> state.projection.len()
            <= MAX_PROJECTION_BYTES) ==> state.bounded(),
        state.bounded() ==> state.stored(key, stamp, children).bounded(),
        state.bounded() ==> state.reused().bounded(),
        state.bounded() ==> state.listed().bounded(),
        state.bounded() ==> state.with_failure().bounded(),
        state.invalidated().bounded(),
        (key matches Some(at) && stamp is Some && state.collecting && state.next.dom().finite()
            && state.stored(key, stamp, children).collecting) ==> {
            let others = state.next.remove(key.unwrap());
            let after = state.stored(key, stamp, children).next;
            &&& total(after, child_weight()) == total(others, child_weight()) + children.len()
            &&& total(after, byte_weight()) == total(others, byte_weight()) + key.unwrap().0.len()
                + key.unwrap().1.len() + names_len(children)
        },
{
    if key is Some && stamp is Some && state.next.dom().finite() {
        let others = state.next.remove(key.unwrap());
        let listing = (stamp.unwrap(), children);
        lemma_total_insert(others, child_weight(), key.unwrap(), listing);
        lemma_total_insert(others, byte_weight(), key.unwrap(), listing);
    }
}

/// Every name of a listing can be stored.
pub open spec fn all_names_valid(children: Seq<(Seq<u8>, EntryType)>) -> bool {
    forall|i: int| 0 <= i < children.len() ==> is_valid_name((#[trigger] children[i]).0)
}

fn encode_children(names: &Vec<(Vec<u8>, EntryType)>) -> (children: Option<Vec<Child>>)
    ensures
        match children {
            Some(children) => all_names_valid(names.deep_view()) && children.deep_view()
                == names.deep_view(),
            None => !all_names_valid(names.deep_view()),
        },
{
    broadcast use lemma_bytes_model;

    let ghost models = names.deep_view();
    let mut children: Vec<Child> = Vec::new();
    let mut i: usize = 0;
    while i < names.len()
        invariant
            i <= names@.len(),
            models == names.deep_view(),
            children@.len() == i,
            forall|k: int| 0 <= k < i ==> #[trigger] children@[k].deep_view() == models[k],
            forall|k: int| 0 <= k < i ==> is_valid_name((#[trigger] models[k]).0),
        decreases names@.len() - i,
    {
        proof {
            lemma_bytes_model(names@[i as int].0);
            assert(models[i as int] == (names@[i as int].0@, names@[i as int].1));
        }
        match encode_name(names[i].0.as_slice()) {
            Some(name) => {
                children.push(Child { name: BoundedVec(name), kind: names[i].1 });
            },
            None => {
                return None;
            },
        }
        i += 1;
    }
    assert(children.deep_view() =~= models);
    Some(children)
}

fn stored_children(names: &Vec<(Vec<u8>, EntryType)>) -> (children: Vec<Child>)
    ensures
        children.deep_view() == names.deep_view(),
{
    broadcast use lemma_bytes_model;

    let ghost models = names.deep_view();
    let mut children: Vec<Child> = Vec::new();
    let mut i: usize = 0;
    while i < names.len()
        invariant
            i <= names@.len(),
            models == names.deep_view(),
            children@.len() == i,
            forall|k: int| 0 <= k < i ==> #[trigger] children@[k].deep_view() == models[k],
        decreases names@.len() - i,
    {
        proof {
            lemma_bytes_model(names@[i as int].0);
            assert(models[i as int] == (names@[i as int].0@, names@[i as int].1));
        }
        children.push(
            Child { name: BoundedVec(copy_bytes(names[i].0.as_slice())), kind: names[i].1 },
        );
        i += 1;
    }
    assert(children.deep_view() =~= models);
    children
}

fn plain_children(children: &Vec<Child>) -> (names: Vec<(Vec<u8>, EntryType)>)
    ensures
        names.deep_view() == children.deep_view(),
{
    broadcast use lemma_bytes_model;

    let ghost models = children.deep_view();
    let mut names: Vec<(Vec<u8>, EntryType)> = Vec::new();
    let mut i: usize = 0;
    while i < children.len()
        invariant
            i <= children@.len(),
            models == children.deep_view(),
            names@.len() == i,
            forall|k: int| 0 <= k < i ==> #[trigger] names@[k].deep_view() == models[k],
        decreases children@.len() - i,
    {
        let name = copy_bytes(children[i].name.0.as_slice());
        let kind = children[i].kind;
        proof {
            lemma_bytes_model(name);
            assert(models[i as int] == children@[i as int].deep_view());
        }
        names.push((name, kind));
        i += 1;
    }
    assert(names.deep_view() =~= models);
    names
}

/// The bytes of a key and of the names of its listing, up to the largest machine integer.
fn sum_bytes(key: &DirectoryKey, children: &Vec<Child>) -> (sum: usize)
    ensures
        is_saturated_sum(
            sum,
            (key.deep_view().0.len() + key.deep_view().1.len() + names_len(
                children.deep_view(),
            )) as int,
        ),
{
    broadcast use lemma_bytes_model;

    let ghost models = children.deep_view();
    let ghost keyed = (key.deep_view().0.len() + key.deep_view().1.len()) as int;
    let mut sum: usize = key.0.len().saturating_add(key.1.len());
    let mut i: usize = 0;
    assert(models.take(0) =~= Seq::empty());
    while i < children.len()
        invariant
            i <= children@.len(),
            models == children.deep_view(),
            is_saturated_sum(sum, keyed + names_len(models.take(i as int))),
        decreases children@.len() - i,
    {
        proof {
            assert(models.take(i + 1).drop_last() =~= models.take(i as int));
            assert(models[i as int] == children@[i as int].deep_view());
        }
        sum = sum.saturating_add(children[i].name.0.len());
        i += 1;
    }
    assert(models.take(i as int) =~= models);
    sum
}

/// Every directory takes its children from within `count` of them.
spec fn ranges_inside(directories: Seq<Directory>, count: nat) -> bool {
    forall|i: int|
        0 <= i < directories.len() ==> (#[trigger] directories[i]).start + directories[i].len
            <= count
}

fn load_listings(inventory: &DirectoryInventory) -> (listings: Listings)
    requires
        ranges_inside(inventory.directories.0@, inventory.children.0@.len()),
    ensures
        listings.deep_view() == listings_of(*inventory),
{
    broadcast use lemma_bytes_model;

    let directories = &inventory.directories.0;
    let children = &inventory.children.0;
    let ghost models = children.deep_view();
    let mut listings: Listings = SortedMap::new();
    let mut index: usize = 0;
    while index < directories.len()
        invariant
            index <= directories@.len(),
            directories == &inventory.directories.0,
            children == &inventory.children.0,
            models == children.deep_view(),
            ranges_inside(directories@, children@.len()),
            listings.deep_view() == listings_upto(directories@, models, index as int),
        decreases directories@.len() - index,
    {
        let directory = &directories[index];
        let count = children.len();
        assert(directories@[index as int].start + directories@[index as int].len <= count);
        let end: usize = directory.start + directory.len;
        let mut listing: Vec<Child> = Vec::new();
        let mut i: usize = directory.start;
        assert(listing.deep_view() =~= models.subrange(directory.start as int, i as int));
        while i < end
            invariant
                directory.start <= i <= end <= children@.len(),
                models == children.deep_view(),
                listing.deep_view() == models.subrange(directory.start as int, i as int),
            decreases end - i,
        {
            let ghost shorter = listing.deep_view();
            let child = children[i].duplicate();
            listing.push(child);
            proof {
                assert(models[i as int] == children@[i as int].deep_view());
                assert(listing.deep_view() =~= shorter.push(models[i as int]));
                assert(listing.deep_view() =~= models.subrange(directory.start as int, i + 1));
            }
            i += 1;
        }
        let key = (
            copy_bytes(directory.root.0.as_slice()),
            copy_bytes(directory.relative.0.as_slice()),
        );
        assert(key.deep_view() == directory.key());
        let entry = (directory.stamp, listing);
        listings.insert(key, entry);
        index += 1;
    }
    listings
}

/// A child is visited below its parent: its path is the parent's with a slash and its name, it
/// is one level deeper, and its path inside the root grows the same way. Every child is visited,
/// in the order of the listing, before what was pending.
pub proof fn law_children_are_visited_below_their_parent(
    walk: WalkState,
    parent: Visit,
    children: Seq<(Seq<u8>, EntryType)>,
    i: int,
)
    requires
        0 <= i < children.len(),
        children[i].0.len() > 0,
        children[i].0[0] != 47,
        walk.current == Some(parent),
    ensures
        ({
            let after = walk.descended(children);
            let visit = after.pending[i];
            let name = children[i].0;
            &&& after.current is None
            &&& after.pending.len() == children.len() + walk.pending.len()
            &&& visit.kind == children[i].1
            &&& parent.depth < usize::MAX ==> visit.depth == parent.depth + 1
            &&& parent.path.len() > 0 && parent.path.last() != 47 ==> visit.path
                == parent.path.push(47) + name
            &&& parent.path.len() == 0 || parent.path.last() == 47 ==> visit.path == parent.path
                + name
            &&& parent.relative.len() == 0 ==> visit.relative == name
            &&& parent.relative.len() > 0 ==> visit.relative == parent.relative.push(47) + name
            &&& forall|j: int|
                0 <= j < walk.pending.len() ==> after.pending[children.len() + j] == (
                #[trigger] walk.pending[j])
            &&& after.listings == walk.listings.push(children)
        }),
{
}

proof fn lemma_leading_files(visits: Seq<Visit>)
    ensures
        leading_files(visits) <= visits.len(),
        forall|i: int|
            0 <= i < leading_files(visits) ==> (#[trigger] visits[i]).kind != EntryType::Directory,
        leading_files(visits) < visits.len() ==> visits[leading_files(visits) as int].kind
            == EntryType::Directory,
    decreases visits.len(),
{
    if visits.len() > 0 && visits[0].kind != EntryType::Directory {
        let rest = visits.drop_first();
        lemma_leading_files(rest);
        assert forall|i: int| 0 <= i < leading_files(visits) implies (#[trigger] visits[i]).kind
            != EntryType::Directory by {
            if i > 0 {
                assert(rest[i - 1] == visits[i]);
            }
        }
        if leading_files(rest) < rest.len() {
            assert(rest[leading_files(rest) as int] == visits[leading_files(visits) as int]);
        }
    }
}

/// The next directory of a walk is the first one that is pending. What is pending before it is
/// none, and what comes behind it stays pending. A walk is finished where no directory is left.
pub proof fn law_the_first_pending_directory_is_next(walk: WalkState, i: int)
    requires
        walk.current is None,
    ensures
        ({
            let after = walk.advanced();
            let n = walk.pending.len() as int;
            &&& 0 <= i < n && walk.pending[i].kind == EntryType::Directory && (forall|j: int|
                0 <= j < i ==> (#[trigger] walk.pending[j]).kind != EntryType::Directory)
                ==> after.current == Some(walk.pending[i]) && after.pending == walk.pending.skip(
                i + 1,
            )
            &&& (forall|j: int|
                0 <= j < n ==> (#[trigger] walk.pending[j]).kind != EntryType::Directory)
                ==> after.finished()
            &&& after.listings == walk.listings && after.root == walk.root
        }),
{
    lemma_leading_files(walk.pending);
    let files = leading_files(walk.pending) as int;
    let n = walk.pending.len() as int;
    if 0 <= i < n && walk.pending[i].kind == EntryType::Directory && forall|j: int|
        0 <= j < i ==> (#[trigger] walk.pending[j]).kind != EntryType::Directory {
        assert(walk.pending[i].kind == EntryType::Directory);
        if files < i {
            assert(walk.pending[files].kind != EntryType::Directory);
        }
        assert(files == i);
    }
    if forall|j: int| 0 <= j < n ==> (#[trigger] walk.pending[j]).kind != EntryType::Directory {
        if files < n {
            assert(walk.pending[files].kind != EntryType::Directory);
        }
    }
}

/// A directory stayed the same exactly if it was held open, had a stamp, and shows that stamp
/// again both where it is held open and where it is opened anew.
pub proof fn law_directories_that_stayed(
    anchored: bool,
    before: Option<Stamp>,
    again: Option<Stamp>,
    reopened: Option<Stamp>,
    stamp: Stamp,
)
    ensures
        anchored && before == Some(stamp) && again == Some(stamp) && reopened == Some(stamp)
            ==> stayed(anchored, before, again, reopened),
        stayed(anchored, before, again, reopened) ==> anchored && before is Some && again == before
            && reopened == before,
{
}

/// Which listing is on record: one that was made now comes before one that was loaded. It is
/// reused exactly if the directory shows the stamp that it was made with, and the stamp can be
/// trusted. Paths that cannot be stored have no listing.
pub proof fn law_listings_on_record(
    state: InventoryState,
    key: (Seq<u8>, Seq<u8>),
    stamp: Stamp,
    now: Timestamp,
)
    ensures
        state.next.contains_key(key) ==> state.recorded(key) == Some(state.next[key]),
        !state.next.contains_key(key) && state.previous.contains_key(key) ==> state.recorded(key)
            == Some(state.previous[key]),
        !state.next.contains_key(key) && !state.previous.contains_key(key) ==> state.recorded(
            key,
        ) is None,
        state.reusable(Some(key), Some(stamp), Some(now)) is Some <==> state.recorded(key) is Some
            && state.recorded(key).unwrap().0 == stamp && stamp.is_eligible(now),
        state.reusable(Some(key), Some(stamp), Some(now)) is Some ==> state.reusable(
            Some(key),
            Some(stamp),
            Some(now),
        ) == Some(state.recorded(key).unwrap().1),
        state.reusable(None, Some(stamp), Some(now)) is None,
        state.reusable(Some(key), None, Some(now)) is None,
        state.reusable(Some(key), Some(stamp), None) is None,
        is_eligible(Some(stamp), Some(now)) == stamp.is_eligible(now),
        !is_eligible(None, Some(now)) && !is_eligible(Some(stamp), None),
        key_of(key.0, key.1) is Some <==> storable_path(key.0) && storable_path(key.1),
        key_of(key.0, key.1) is Some ==> key_of(key.0, key.1) == Some(key),
{
}

/// What storing a listing does: it is on record, and every other one stays, unless listings are
/// not collected or the limits would be overstepped. Then all listings are given up, of this
/// request and of the one before.
pub proof fn law_stored_listings_are_on_record(
    state: InventoryState,
    key: (Seq<u8>, Seq<u8>),
    stamp: Stamp,
    children: Seq<(Seq<u8>, EntryType)>,
    other: (Seq<u8>, Seq<u8>),
)
    requires
        other != key,
    ensures
        ({
            let after = state.stored(Some(key), Some(stamp), children);
            &&& state.collecting && after.collecting ==> {
                &&& after.next.contains_key(key) && after.next[key] == (stamp, children)
                &&& after.next.contains_key(other) == state.next.contains_key(other)
                &&& state.next.contains_key(other) ==> after.next[other] == state.next[other]
                &&& after.previous == state.previous
                &&& after.next.dom().len() <= 4_096
            }
            &&& state.collecting && !after.collecting ==> !after.next.contains_key(other)
                && !after.previous.contains_key(other) && !after.next.contains_key(key)
            &&& !state.collecting ==> after == state
            &&& state.stored(None, Some(stamp), children) == state
            &&& state.stored(Some(key), None, children) == state
            &&& after.counters == state.counters && after.failed == state.failed && after.epoch
                == state.epoch && after.started == state.started
            &&& state.with_failure().failed && state.with_failure().next == state.next
            &&& !state.invalidated().collecting && !state.invalidated().next.contains_key(key)
                && !state.invalidated().previous.contains_key(key)
        }),
        within_limits(state.next, state.projection.len()) <==> state.next.dom().finite()
            && state.next.dom().len() <= 4_096 && total(state.next, child_weight()) <= 65_536
            && state.projection.len() + total(state.next, byte_weight()) <= 16_777_216,
{
}

/// A walk reuses listings only in the epoch of the request and while its clock goes on. What it
/// found is trusted only if nothing failed, and the epoch and the clock held until its end. The
/// listings are kept for the next request only if there are any and the same still holds.
pub proof fn law_epochs_and_clocks_decide(
    state: InventoryState,
    epoch: Option<Epoch>,
    now: Timestamp,
    since: Timestamp,
)
    ensures
        state.admits(epoch, Some(now)) <==> epoch is Some && state.epoch == epoch
            && state.collecting && (state.started is Some ==> !earlier(
            now,
            state.started.unwrap(),
        )),
        !state.admits(epoch, None),
        state.trusts(since, epoch, Some(now)) <==> !state.failed && state.epoch == epoch
            && !earlier(now, since),
        !state.trusts(since, epoch, None),
        state.worth_keeping(epoch, Some(now)) <==> state.collecting && state.next.dom().len() > 0
            && epoch is Some && state.epoch == epoch && (state.started is Some ==> !earlier(
            now,
            state.started.unwrap(),
        )),
        !state.worth_keeping(epoch, None),
{
}

/// Counters count one by one as far as they can, and a full walk counts every directory in it.
pub proof fn law_directories_are_counted(
    count: usize,
    more: nat,
    entries: Seq<DiscoveredEntry>,
    entry: DiscoveredEntry,
)
    ensures
        count < usize::MAX ==> one_more(count) == count + 1,
        count == usize::MAX ==> one_more(count) == usize::MAX,
        count + more <= usize::MAX ==> capped_sum(count, more) == count + more,
        count + more > usize::MAX ==> capped_sum(count, more) == usize::MAX,
        directories_among(entries) == entries.filter(
            |e: DiscoveredEntry| e.file_type == EntryType::Directory,
        ).len(),
    decreases entries.len(),
{
    reveal(Seq::filter);
    if entries.len() > 0 {
        law_directories_are_counted(count, more, entries.drop_last(), entry);
    }
}

/// The children of a listing weigh what their names are long, and a listing what its paths and
/// its names are long.
pub proof fn law_listings_weigh_their_bytes(
    key: (Seq<u8>, Seq<u8>),
    stamp: Stamp,
    children: Seq<(Seq<u8>, EntryType)>,
    child: (Seq<u8>, EntryType),
)
    ensures
        names_len(children.push(child)) == names_len(children) + child.0.len(),
        names_len(Seq::empty()) == 0,
        byte_weight()(key, (stamp, children)) == key.0.len() + key.1.len() + names_len(children),
        child_weight()(key, (stamp, children)) == children.len(),
{
    assert(children.push(child).drop_last() =~= children);
}

proof fn lemma_listing_of(
    directories: Seq<Directory>,
    children: Seq<(Seq<u8>, EntryType)>,
    n: int,
    i: int,
)
    requires
        0 <= i < n <= directories.len(),
        forall|j: int| i < j < n ==> (#[trigger] directories[j]).key() != directories[i].key(),
    ensures
        ({
            let listings = listings_upto(directories, children, n);
            &&& listings.contains_key(directories[i].key())
            &&& listings[directories[i].key()].0 == directories[i].stamp
            &&& listings[directories[i].key()].1 == children.subrange(
                directories[i].start as int,
                directories[i].start + directories[i].len,
            )
        }),
    decreases n,
{
    if i < n - 1 {
        lemma_listing_of(directories, children, n - 1, i);
        assert(directories[n - 1].key() != directories[i].key());
    }
}

/// What an inventory says of a directory: the stamp that stands with it, and the children at its
/// place. Only an inventory that is valid for the request is loaded.
pub proof fn law_inventories_tell_their_listings(
    inventory: DirectoryInventory,
    projection: Seq<u8>,
    epoch: Epoch,
    now: Timestamp,
    i: int,
)
    requires
        inventory.is_valid(projection, epoch, now),
        0 <= i < inventory.directories.0@.len(),
    ensures
        ({
            let directory = inventory.directories.0@[i];
            let listings = loaded(Some(inventory), projection, Some(epoch), Some(now));
            &&& listings.contains_key((directory.root.0@, directory.relative.0@))
            &&& listings[(directory.root.0@, directory.relative.0@)] == (
                directory.stamp,
                inventory.children.0.deep_view().subrange(
                    directory.start as int,
                    directory.start + directory.len,
                ),
            )
        }),
{
    let directories = inventory.directories.0@;
    assert forall|j: int| i < j < directories.len() implies (#[trigger] directories[j]).key()
        != directories[i].key() by {
        assert(directories[i].key() != directories[j].key());
    }
    lemma_listing_of(
        directories,
        inventory.children.0.deep_view(),
        directories.len() as int,
        i,
    );
}

/// A request begins with nothing listed or counted, and collects listings unless what they are
/// for is too long to be stored. It starts with what an earlier one left only if that is valid
/// in a known epoch at a known time.
pub proof fn law_requests_begin_anew(
    previous: Option<DirectoryInventory>,
    projection: Seq<u8>,
    epoch: Option<Epoch>,
    started: Option<Timestamp>,
    key: (Seq<u8>, Seq<u8>),
)
    ensures
        ({
            let state = begun(previous, projection, epoch, started);
            &&& state.projection == projection && state.epoch == epoch && state.started == started
            &&& !state.next.contains_key(key) && !state.failed
            &&& state.collecting <==> projection.len() <= 65_536
            &&& state.previous.contains_key(key) ==> previous is Some && epoch is Some && started
                is Some && previous.unwrap().is_valid(projection, epoch.unwrap(), started.unwrap())
        }),
{
}

} // verus!
