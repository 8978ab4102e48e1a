//! A volume's persistent journal of file-system events. Replaying it from the event id
//! recorded by the last committed refresh names every path that changed under the source
//! roots since then. Any sign that the journal is incomplete makes the replay unusable, and
//! the refresh falls back to a full walk.

use std::time::Duration;
use vstd::prelude::*;
use vstd::utf8::encode_utf8;
use crate::model::Modeled;
use crate::path::{byte_parts, copy_bytes, FilePath, Part, SLASH};
use crate::sorted::SortedSet;
use crate::outside::{decode_lossy, lossy_text};

verus! {

/// A position in the journal of one volume.
#[derive(Clone, Debug, PartialEq, Eq)]
pub struct JournalCursor {
    pub device_uuid: String,
    pub event_id: u64,
}

/// Cursor to persist with the refresh that captured it, valid for one root/filter fingerprint.
#[derive(Clone, Debug, PartialEq, Eq)]
pub struct JournalCursorUpdate {
    pub fingerprint: String,
    pub cursor: JournalCursor,
}

/// What a replay found.
pub enum Replay {
    /// Every path that may have changed since the previous cursor.
    Changed(SortedSet<FilePath>),
    Unusable(&'static str),
}

/// A replay together with the cursor that the next one starts from.
pub struct JournalReplay {
    /// Captured before any events were read, so the next replay overlaps this one.
    pub next: Option<JournalCursor>,
    pub outcome: Replay,
}

/// The longest wait for a replay, in milliseconds.
pub const REPLAY_TIMEOUT_MILLIS: u64 = 1_000;

/// Replay cost grows with every event the volume logged since the cursor, not only those under
/// the roots. Beyond this distance a walk is cheaper.
pub const MAX_REPLAY_DISTANCE: u64 = 500_000;

/// `kFSEventStreamEventFlagHistoryDone`
pub const HISTORY_DONE: u32 = 0x10;

/// `MustScanSubDirs`, `UserDropped`, `KernelDropped`, `EventIdsWrapped`, `RootChanged`, `Mount`
/// and `Unmount`
pub const INVALIDATING: u32 = 0x1 | 0x2 | 0x4 | 0x8 | 0x20 | 0x40 | 0x80;

/// `kFSEventStreamEventFlagItemIsDir`
pub const ITEM_IS_DIR: u32 = 0x20000;

/// `kFSEventStreamEventFlagItemRenamed` and `kFSEventStreamEventFlagItemRemoved`
pub const RENAMED_OR_REMOVED: u32 = 0x800 | 0x200;

impl DeepView for JournalCursor {
    type V = (Seq<char>, u64);

    open spec fn deep_view(&self) -> (Seq<char>, u64) {
        (self.device_uuid@, self.event_id)
    }
}

impl JournalReplay {
    /// The replay cannot be used, for this reason.
    pub open spec fn is_unusable(&self, reason: Seq<char>) -> bool {
        self.outcome matches Replay::Unusable(why) && why@ == reason
    }

    fn unusable(next: Option<JournalCursor>, reason: &'static str) -> (replay: Self)
        ensures
            replay.next == next,
            replay.is_unusable(reason@),
    {
        JournalReplay { next, outcome: Replay::Unusable(reason) }
    }
}

/// The replay of a platform that keeps no journal.
pub fn replay(
    _roots: &[FilePath],
    _previous: Option<&JournalCursor>,
    _timeout: Duration,
) -> (replay: JournalReplay)
    ensures
        replay.next is None,
        replay.is_unusable("unsupported platform"@),
{
    JournalReplay::unusable(None, "unsupported platform")
}

/// What was learned of one root: the device it is on, if its metadata could be read.
pub struct RootObservation {
    pub path: FilePath,
    pub device: Option<u64>,
}

/// The spellings of the roots whose metadata could be read.
pub open spec fn readable_roots(roots: Seq<RootObservation>) -> Seq<Seq<u8>>
    decreases roots.len(),
{
    if roots.len() == 0 {
        Seq::empty()
    } else {
        let rest = readable_roots(roots.drop_last());
        if roots.last().device is Some {
            rest.push(roots.last().path.spelling())
        } else {
            rest
        }
    }
}

/// Two readable roots are on different devices.
pub open spec fn span_devices(roots: Seq<RootObservation>) -> bool {
    exists|i: int, j: int|
        0 <= i < roots.len() && 0 <= j < roots.len() && (#[trigger] roots[i]).device is Some && (
        #[trigger] roots[j]).device is Some && roots[i].device != roots[j].device
}

/// No root is readable.
pub open spec fn none_readable(roots: Seq<RootObservation>) -> bool {
    forall|i: int| 0 <= i < roots.len() ==> (#[trigger] roots[i]).device is None
}

/// The device that all readable roots share, and those roots in their order.
pub fn watched_roots(roots: &Vec<RootObservation>) -> (watched: Result<
    (u64, Vec<FilePath>),
    JournalReplay,
>)
    ensures
        match watched {
            Ok((device, paths)) => {
                &&& !span_devices(roots@)
                &&& exists|i: int| 0 <= i < roots@.len() && #[trigger] roots@[i].device == Some(device)
                &&& paths@.len() == readable_roots(roots@).len()
                &&& forall|i: int|
                    0 <= i < paths@.len() ==> #[trigger] paths@[i].spelling() == readable_roots(
                        roots@,
                    )[i]
            },
            Err(replay) => {
                &&& replay.next is None
                &&& replay.is_unusable("roots span devices"@) || replay.is_unusable("no roots"@)
                &&& span_devices(roots@) == replay.is_unusable("roots span devices"@)
                &&& none_readable(roots@) == replay.is_unusable("no roots"@)
            },
        },
{
    proof {
        reveal_strlit("roots span devices");
        reveal_strlit("no roots");
        assert("roots span devices"@.len() != "no roots"@.len());
    }
    let mut device: Option<u64> = None;
    let mut watched: Vec<FilePath> = Vec::new();
    let mut index: usize = 0;
    assert(roots@.take(0) =~= Seq::empty());
    while index < roots.len()
        invariant
            index <= roots@.len(),
            "roots span devices"@.len() != "no roots"@.len(),
            watched@.len() == readable_roots(roots@.take(index as int)).len(),
            forall|i: int|
                0 <= i < watched@.len() ==> #[trigger] watched@[i].spelling() == readable_roots(
                    roots@.take(index as int),
                )[i],
            device is None ==> forall|i: int|
                0 <= i < index ==> (#[trigger] roots@[i]).device is None,
            device is Some ==> exists|i: int|
                0 <= i < index && #[trigger] roots@[i].device == device,
            forall|i: int|
                0 <= i < index && (#[trigger] roots@[i]).device is Some ==> roots@[i].device
                    == device,
        decreases roots@.len() - index,
    {
        let root = &roots[index];
        proof {
            assert(roots@.take(index + 1).drop_last() =~= roots@.take(index as int));
            assert(roots@.take(index + 1).last() == roots@[index as int]);
        }
        if let Some(found) = root.device {
            match device {
                None => {
                    device = Some(found);
                },
                Some(seen) => {
                    if seen != found {
                        proof {
                            let i = choose|i: int|
                                0 <= i < index && #[trigger] roots@[i].device == device;
                            assert(roots@[i].device != roots@[index as int].device);
                            assert(span_devices(roots@));
                        }
                        return Err(JournalReplay::unusable(None, "roots span devices"));
                    }
                },
            }
            assert(roots@[index as int].device == device);
            watched.push(root.path.copy());
        }
        index += 1;
    }
    assert(roots@.take(roots@.len() as int) =~= roots@);
    match device {
        None => Err(JournalReplay::unusable(None, "no roots")),
        Some(device) => Ok((device, watched)),
    }
}

/// How a replay goes on once the volume has been identified.
pub enum ReplayPlan {
    /// No event has to be read.
    Finished(JournalReplay),
    /// Events are read from `since` on.
    Stream { next: JournalCursor, since: u64 },
}

/// Why the journal cannot be replayed from `previous`, if it cannot.
pub open spec fn refusal(
    device_uuid: Option<Seq<char>>,
    event_id: u64,
    previous: Option<(Seq<char>, u64)>,
) -> Option<Seq<char>> {
    match (device_uuid, previous) {
        (None, _) => Some("device without journal"@),
        (Some(_), None) => Some("no cursor"@),
        (Some(device), Some((seen, since))) => if seen != device {
            Some("device changed"@)
        } else if since > event_id {
            Some("cursor ahead of journal"@)
        } else if event_id - since > MAX_REPLAY_DISTANCE {
            Some("cursor too far behind"@)
        } else {
            None
        },
    }
}

/// Decides how the journal is replayed on a volume whose current event id is `event_id`.
pub fn plan_replay(
    device_uuid: Option<String>,
    event_id: u64,
    previous: Option<&JournalCursor>,
) -> (plan: ReplayPlan)
    ensures
        ({
            let device = device_uuid.deep_view();
            let seen = previous.deep_view();
            match plan {
                ReplayPlan::Finished(replay) => {
                    &&& replay.next.deep_view() == (match device {
                        Some(uuid) => Some((uuid, event_id)),
                        None => None,
                    })
                    &&& match refusal(device, event_id, seen) {
                        Some(reason) => replay.is_unusable(reason),
                        None => seen.unwrap().1 == event_id && (replay.outcome matches Replay::Changed(
                            paths,
                        ) && paths.deep_view() == Set::<Seq<Part<u8>>>::empty()),
                    }
                },
                ReplayPlan::Stream { next, since } => {
                    &&& refusal(device, event_id, seen) is None
                    &&& since < event_id
                    &&& since == seen.unwrap().1
                    &&& next.deep_view() == (device.unwrap(), event_id)
                },
            }
        }),
{
    let device_uuid = match device_uuid {
        Some(uuid) => uuid,
        None => {
            return ReplayPlan::Finished(JournalReplay::unusable(None, "device without journal"));
        },
    };
    let next = JournalCursor { device_uuid: device_uuid.duplicate(), event_id };
    let previous = match previous {
        Some(previous) => previous,
        None => {
            return ReplayPlan::Finished(JournalReplay::unusable(Some(next), "no cursor"));
        },
    };
    if !previous.device_uuid.same(&device_uuid) {
        return ReplayPlan::Finished(JournalReplay::unusable(Some(next), "device changed"));
    }
    if previous.event_id > event_id {
        return ReplayPlan::Finished(
            JournalReplay::unusable(Some(next), "cursor ahead of journal"),
        );
    }
    if event_id - previous.event_id > MAX_REPLAY_DISTANCE {
        return ReplayPlan::Finished(JournalReplay::unusable(Some(next), "cursor too far behind"));
    }
    if previous.event_id == event_id {
        return ReplayPlan::Finished(
            JournalReplay { next: Some(next), outcome: Replay::Changed(SortedSet::new()) },
        );
    }
    ReplayPlan::Stream { next, since: previous.event_id }
}

/// One event of the journal: the path as the system names it, and its flags.
pub struct JournalEvent {
    pub path: Seq<u8>,
    pub flags: u32,
}

/// Without the separators that it ends in.
pub open spec fn without_trailing_slashes(path: Seq<u8>) -> Seq<u8>
    decreases path.len(),
{
    if path.len() > 0 && path.last() == SLASH {
        without_trailing_slashes(path.drop_last())
    } else {
        path
    }
}

/// The path that an event names.
pub open spec fn event_path(path: Seq<u8>) -> Seq<u8> {
    without_trailing_slashes(encode_utf8(lossy_text(path)))
}

/// What the events read so far amount to.
#[verifier::ext_equal]
pub struct Collected {
    pub paths: Set<Seq<Part<u8>>>,
    pub done: bool,
    pub incomplete: bool,
}

/// Nothing was read yet.
pub open spec fn nothing_collected() -> Collected {
    Collected { paths: Set::empty(), done: false, incomplete: false }
}

/// The event ends the recorded history.
pub open spec fn ends_history(flags: u32) -> bool {
    flags & HISTORY_DONE != 0
}

/// The event says that events were lost.
pub open spec fn invalidates(flags: u32) -> bool {
    !ends_history(flags) && flags & INVALIDATING != 0
}

/// The event names a path that may have changed: anything but a directory that stayed in
/// place.
pub open spec fn names_change(event: JournalEvent) -> bool {
    &&& !ends_history(event.flags)
    &&& !invalidates(event.flags)
    &&& !(event.flags & ITEM_IS_DIR != 0 && event.flags & RENAMED_OR_REMOVED == 0)
    &&& event_path(event.path).len() > 0
}

/// What one more event adds.
pub open spec fn collect_one(before: Collected, event: JournalEvent) -> Collected {
    Collected {
        paths: if names_change(event) {
            before.paths.insert(byte_parts(event_path(event.path)))
        } else {
            before.paths
        },
        done: before.done || ends_history(event.flags),
        incomplete: before.incomplete || invalidates(event.flags),
    }
}

/// What a sequence of events amounts to.
pub open spec fn collect_all(events: Seq<JournalEvent>) -> Collected
    decreases events.len(),
{
    if events.len() == 0 {
        nothing_collected()
    } else {
        collect_one(collect_all(events.drop_last()), events.last())
    }
}

/// The model of [`Replay`].
pub enum ReplayModel {
    Changed(Set<Seq<Part<u8>>>),
    Unusable(Seq<char>),
}

impl DeepView for Replay {
    type V = ReplayModel;

    open spec fn deep_view(&self) -> ReplayModel {
        match self {
            Replay::Changed(paths) => ReplayModel::Changed(paths.deep_view()),
            Replay::Unusable(reason) => ReplayModel::Unusable(reason@),
        }
    }
}

/// What the collected events amount to, or a stream that failed for a reason.
pub open spec fn conclusion(collected: Collected, failure: Option<Seq<char>>) -> ReplayModel {
    match failure {
        Some(reason) => ReplayModel::Unusable(reason),
        None => if collected.incomplete {
            ReplayModel::Unusable("journal incomplete"@)
        } else if collected.done {
            ReplayModel::Changed(collected.paths)
        } else {
            ReplayModel::Unusable("replay timed out"@)
        },
    }
}

/// Reads events into the set of paths that changed.
pub struct Collector {
    paths: SortedSet<FilePath>,
    done: bool,
    unusable: Option<&'static str>,
}

impl Collector {
    /// What was read so far.
    pub closed spec fn collected(&self) -> Collected {
        Collected {
            paths: self.paths.deep_view(),
            done: self.done,
            incomplete: self.unusable is Some,
        }
    }

    #[verifier::type_invariant]
    spec fn well_formed(&self) -> bool {
        self.unusable matches Some(reason) ==> reason@ == "journal incomplete"@
    }

    /// Has read nothing.
    pub fn new() -> (collector: Self)
        ensures
            collector.collected() == nothing_collected(),
    {
        Collector { paths: SortedSet::new(), done: false, unusable: None }
    }

    /// Reads one event.
    pub fn observe(&mut self, path: &[u8], flags: u32)
        ensures
            final(self).collected() == collect_one(
                old(self).collected(),
                (JournalEvent { path: path@, flags }),
            ),
    {
        proof {
            use_type_invariant(&*self);
        }
        if flags & HISTORY_DONE != 0 {
            self.done = true;
            return ;
        }
        if flags & INVALIDATING != 0 {
            self.unusable = Some("journal incomplete");
            return ;
        }
        let directory_kept = flags & ITEM_IS_DIR != 0 && flags & RENAMED_OR_REMOVED == 0;
        if directory_kept {
            return ;
        }
        let text = decode_lossy(path);
        let mut named = copy_bytes(text.as_str().as_bytes());
        while named.len() > 0 && named[named.len() - 1] == SLASH
            invariant
                without_trailing_slashes(named@) == event_path(path@),
            decreases named@.len(),
        {
            named.pop();
        }
        if named.len() > 0 {
            let mut paths = SortedSet::new();
            std::mem::swap(&mut paths, &mut self.paths);
            paths.insert(FilePath::new(named));
            self.paths = paths;
        }
    }

    /// Whether more events are wanted.
    pub fn waiting(&self) -> (result: bool)
        ensures
            result == (!self.collected().done && !self.collected().incomplete),
    {
        !self.done && self.unusable.is_none()
    }

    /// The replay that the events amount to, or that a failed stream amounts to.
    pub fn conclude(self, next: JournalCursor, stream: Result<(), &'static str>) -> (replay:
        JournalReplay)
        ensures
            replay.next == Some(next),
            replay.outcome.deep_view() == conclusion(
                self.collected(),
                match stream {
                    Err(reason) => Some(reason@),
                    Ok(_) => None,
                },
            ),
            match stream {
                Err(reason) => replay.is_unusable(reason@),
                Ok(_) => if self.collected().incomplete {
                    replay.is_unusable("journal incomplete"@)
                } else if self.collected().done {
                    replay.outcome matches Replay::Changed(paths) && paths.deep_view()
                        == self.collected().paths
                } else {
                    replay.is_unusable("replay timed out"@)
                },
            },
    {
        proof {
            use_type_invariant(&self);
        }
        let outcome = match stream {
            Err(reason) => Replay::Unusable(reason),
            Ok(_) => match self.unusable {
                Some(reason) => Replay::Unusable(reason),
                None => if self.done {
                    Replay::Changed(self.paths)
                } else {
                    Replay::Unusable("replay timed out")
                },
            },
        };
        JournalReplay { next: Some(next), outcome }
    }
}

/// No event is forgotten: a sign of lost events anywhere makes the whole replay incomplete, and
/// every path that some event names is among the changed ones.
pub proof fn law_no_event_is_forgotten(events: Seq<JournalEvent>, index: int)
    requires
        0 <= index < events.len(),
    ensures
        invalidates(events[index].flags) ==> collect_all(events).incomplete,
        ends_history(events[index].flags) ==> collect_all(events).done,
        names_change(events[index]) ==> collect_all(events).paths.contains(
            byte_parts(event_path(events[index].path)),
        ),
    decreases events.len(),
{
    if index < events.len() - 1 {
        assert(events.drop_last()[index] == events[index]);
        law_no_event_is_forgotten(events.drop_last(), index);
    }
}

/// Only named paths count as changed, and nothing else makes a replay incomplete.
pub proof fn law_nothing_is_invented(events: Seq<JournalEvent>)
    ensures
        collect_all(events).incomplete ==> exists|i: int|
            0 <= i < events.len() && invalidates((#[trigger] events[i]).flags),
        collect_all(events).done ==> exists|i: int|
            0 <= i < events.len() && ends_history((#[trigger] events[i]).flags),
        forall|path: Seq<Part<u8>>| #[trigger]
            collect_all(events).paths.contains(path) ==> exists|i: int|
                0 <= i < events.len() && names_change(#[trigger] events[i]) && path == byte_parts(
                    event_path(events[i].path),
                ),
    decreases events.len(),
{
    if events.len() > 0 {
        let shorter = events.drop_last();
        law_nothing_is_invented(shorter);
        assert forall|i: int| 0 <= i < shorter.len() implies #[trigger] shorter[i] == events[i] by {}
        let last = events.len() - 1;
        assert(events[last] == events.last());
        if collect_all(shorter).incomplete {
            let i = choose|i: int|
                0 <= i < shorter.len() && invalidates((#[trigger] shorter[i]).flags);
            assert(invalidates(events[i].flags));
        }
        if collect_all(shorter).done {
            let i = choose|i: int|
                0 <= i < shorter.len() && ends_history((#[trigger] shorter[i]).flags);
            assert(ends_history(events[i].flags));
        }
        assert forall|path: Seq<Part<u8>>| #[trigger]
            collect_all(events).paths.contains(path) implies exists|i: int|
            0 <= i < events.len() && names_change(#[trigger] events[i]) && path == byte_parts(
                event_path(events[i].path),
            ) by {
            if collect_all(shorter).paths.contains(path) {
                let i = choose|i: int|
                    0 <= i < shorter.len() && names_change(#[trigger] shorter[i]) && path
                        == byte_parts(event_path(shorter[i].path));
                assert(names_change(events[i]));
            } else {
                assert(names_change(events[last]));
            }
        }
    }
}

/// What an event adds, told from its flags. The end of the history ends it and names nothing.
/// Any of the flags for dropped, wrapped or coalesced events and for changed roots and volumes
/// spoils the replay and names nothing. Every other event with a path names that path, whatever
/// happened to it, unless it is about a directory: that is named exactly if it was renamed or
/// removed. What was collected before stays.
pub proof fn law_flags_tell_what_changed(before: Collected, event: JournalEvent, other: Seq<Part<u8>>)
    ensures
        ({
            let after = collect_one(before, event);
            let path = byte_parts(event_path(event.path));
            let flags = event.flags;
            let plain = flags & 0x10 == 0 && flags & 0xef == 0 && event_path(event.path).len() > 0;
            &&& after.done == (before.done || flags & 0x10 != 0)
            &&& after.incomplete == (before.incomplete || (flags & 0x10 == 0 && flags & 0xef != 0))
            &&& plain && flags & 0x20000 == 0 ==> after.paths.contains(path)
            &&& plain && flags & 0x20000 != 0 && flags & 0xa00 != 0 ==> after.paths.contains(path)
            &&& plain && flags & 0x20000 != 0 && flags & 0xa00 == 0 ==> after.paths
                == before.paths
            &&& !plain ==> after.paths == before.paths
            &&& before.paths.contains(other) ==> after.paths.contains(other)
            &&& after.paths.contains(other) ==> other == path || before.paths.contains(other)
        }),
{
    lemma_flag_values();
}

proof fn lemma_flag_values()
    ensures
        HISTORY_DONE == 0x10u32,
        INVALIDATING == 0xefu32,
        ITEM_IS_DIR == 0x20000u32,
        RENAMED_OR_REMOVED == 0xa00u32,
{
    assert(0x1u32 | 0x2u32 | 0x4u32 | 0x8u32 | 0x20u32 | 0x40u32 | 0x80u32 == 0xefu32)
        by (bit_vector);
    assert(0x800u32 | 0x200u32 == 0xa00u32) by (bit_vector);
}

/// The path of an event is what it names without the slashes behind it. One that ends in
/// something else is kept as it is, and further slashes behind it make no difference.
pub proof fn law_trailing_slashes_do_not_matter(path: Seq<u8>)
    ensures
        ({
            let kept = without_trailing_slashes(path);
            &&& kept.len() <= path.len()
            &&& kept == path.take(kept.len() as int)
            &&& forall|i: int| kept.len() <= i < path.len() ==> path[i] == 0x2f
            &&& kept.len() > 0 ==> kept.last() != 0x2f
            &&& without_trailing_slashes(path.push(0x2f)) == kept
        }),
        event_path(path) == without_trailing_slashes(encode_utf8(lossy_text(path))),
    decreases path.len(),
{
    assert(path.push(0x2f).drop_last() =~= path);
    if path.len() > 0 && path.last() == SLASH {
        law_trailing_slashes_do_not_matter(path.drop_last());
        let kept = without_trailing_slashes(path);
        assert(kept =~= path.take(kept.len() as int));
        assert forall|i: int| kept.len() <= i < path.len() implies path[i] == 0x2f by {
            if i < path.len() - 1 {
                assert(path.drop_last()[i] == path[i]);
            }
        }
    } else {
        assert(path.take(path.len() as int) =~= path);
    }
}

/// A cursor can be used exactly if the device has a journal, the cursor was taken on that
/// device, and it is neither ahead of the journal nor more than half a million events behind it.
pub proof fn law_usable_cursors(
    device: Option<Seq<char>>,
    event_id: u64,
    previous: Option<(Seq<char>, u64)>,
)
    ensures
        refusal(device, event_id, previous) is None <==> device is Some && previous is Some
            && previous.unwrap().0 == device.unwrap() && previous.unwrap().1 <= event_id && event_id
            - previous.unwrap().1 <= 500_000,
        device is None ==> refusal(device, event_id, previous) == Some("device without journal"@),
        device is Some && previous is None ==> refusal(device, event_id, previous) == Some(
            "no cursor"@,
        ),
        device is Some && previous is Some && previous.unwrap().0 != device.unwrap() ==> refusal(
            device,
            event_id,
            previous,
        ) == Some("device changed"@),
        device is Some && previous is Some && previous.unwrap().0 == device.unwrap()
            && previous.unwrap().1 > event_id ==> refusal(device, event_id, previous) == Some(
            "cursor ahead of journal"@,
        ),
        device is Some && previous is Some && previous.unwrap().0 == device.unwrap() && event_id
            - previous.unwrap().1 > 500_000 ==> refusal(device, event_id, previous) == Some(
            "cursor too far behind"@,
        ),
{
}

/// The roots that are watched are those that can be read, in their order.
pub proof fn law_readable_roots_are_watched(roots: Seq<RootObservation>)
    ensures
        readable_roots(roots) == roots.filter(
            |root: RootObservation| root.device is Some,
        ).map_values(|root: RootObservation| root.path.spelling()),
        span_devices(roots) <==> exists|i: int, j: int|
            0 <= i < j < roots.len() && (#[trigger] roots[i]).device is Some && (
            #[trigger] roots[j]).device is Some && roots[i].device != roots[j].device,
        none_readable(roots) <==> readable_roots(roots).len() == 0,
    decreases roots.len(),
{
    reveal(Seq::filter);
    let readable = |root: RootObservation| root.device is Some;
    let spelling = |root: RootObservation| root.path.spelling();
    if roots.len() > 0 {
        let shorter = roots.drop_last();
        law_readable_roots_are_watched(shorter);
        let kept = shorter.filter(readable);
        if roots.last().device is Some {
            assert(kept.push(roots.last()).map_values(spelling) =~= kept.map_values(spelling).push(
                spelling(roots.last()),
            ));
        }
        if none_readable(roots) {
            assert(roots[roots.len() - 1].device is None);
            assert forall|i: int| 0 <= i < shorter.len() implies (
            #[trigger] shorter[i]).device is None by {
                assert(shorter[i] == roots[i]);
            }
        }
        if readable_roots(roots).len() == 0 {
            assert forall|i: int| 0 <= i < roots.len() implies (
            #[trigger] roots[i]).device is None by {
                if i < shorter.len() {
                    assert(shorter[i] == roots[i]);
                }
            }
        }
    } else {
        assert(readable_roots(roots) =~= roots.filter(readable).map_values(spelling));
    }
    if span_devices(roots) {
        let (i, j) = choose|i: int, j: int|
            0 <= i < roots.len() && 0 <= j < roots.len() && (#[trigger] roots[i]).device is Some && (
            #[trigger] roots[j]).device is Some && roots[i].device != roots[j].device;
        if i < j {
            assert(roots[i].device is Some && roots[j].device is Some);
        } else {
            assert(roots[j].device is Some && roots[i].device is Some);
        }
    }
}

/// A replay names changes only if the stream held, no event was lost, and the end of the history
/// was seen. Then it names all that were collected, and otherwise it tells why it is of no use.
pub proof fn law_only_complete_replays_are_used(collected: Collected, reason: Seq<char>)
    ensures
        conclusion(collected, Some(reason)) == ReplayModel::Unusable(reason),
        conclusion(collected, None) is Changed <==> collected.done && !collected.incomplete,
        conclusion(collected, None) is Changed ==> conclusion(collected, None)
            == ReplayModel::Changed(collected.paths),
        collected.incomplete ==> conclusion(collected, None) == ReplayModel::Unusable(
            "journal incomplete"@,
        ),
        !collected.incomplete && !collected.done ==> conclusion(collected, None)
            == ReplayModel::Unusable("replay timed out"@),
{
}

/// A replay that cannot be used says why, and names no changes.
pub proof fn law_unusable_replays_say_why(replay: JournalReplay, reason: Seq<char>)
    ensures
        replay.is_unusable(reason) <==> replay.outcome.deep_view() == ReplayModel::Unusable(reason),
        replay.outcome is Changed ==> !replay.is_unusable(reason),
{
}

/// A replay may be waited for, and a cursor may lie behind, by no more than a second and half a
/// million events.
pub proof fn law_replays_are_limited()
    ensures
        REPLAY_TIMEOUT_MILLIS == 1_000,
        MAX_REPLAY_DISTANCE == 500_000,
{
}

} // verus!
