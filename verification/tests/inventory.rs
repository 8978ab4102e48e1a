//! Directory inventories over a simulated directory tree.

use memex_refresh::inventory::{
    decode_name, decode_path, encode_name, encode_path, is_observed_earlier, storable, valid_name,
    BoundedVec, Bytes, Child, DirectoryInventory, EntryType, Epoch, Stamp, Timestamp,
    MAX_CHILDREN, MAX_NAME_BYTES, MAX_PROJECTION_BYTES,
};
use memex_refresh::path::FilePath;
use memex_refresh::platform::{
    attribute_returned, classify_listed, reported_epoch, Listed, ListingReader,
};
use memex_refresh::walk::{stable, DiscoveredEntry, DiscoveryInventory};
use std::collections::BTreeMap;

struct Node {
    inode: u64,
    kind: EntryType,
    generation: u32,
}

/// A directory tree, the clock and the boot it is seen under.
struct World {
    epoch: Option<Epoch>,
    now: Timestamp,
    unstable: bool,
    calls: u32,
    nodes: BTreeMap<String, Node>,
}

const ROOT: &str = "/root";
const PROJECTION: &[u8] = b"roots-and-options";

impl World {
    fn new() -> World {
        let mut world = World {
            epoch: Some(Epoch {
                boot: [b'a'; 32],
                mounts: 1,
            }),
            now: Timestamp {
                seconds: 1_000,
                nanos: 1,
            },
            unstable: false,
            calls: 0,
            nodes: BTreeMap::new(),
        };
        world.make(ROOT, EntryType::Directory);
        world
    }

    fn make(&mut self, path: &str, kind: EntryType) {
        let inode = self.nodes.len() as u64 + 1;
        self.nodes.insert(
            path.to_string(),
            Node {
                inode,
                kind,
                generation: 1,
            },
        );
    }

    fn directory(&mut self, path: &str) {
        self.make(path, EntryType::Directory);
    }

    fn file(&mut self, path: &str) {
        self.make(path, EntryType::File);
    }

    fn rename(&mut self, from: &str, to: &str) {
        let node = self.nodes.remove(from).unwrap();
        self.nodes.insert(to.to_string(), node);
    }

    fn bump(&mut self, path: &str) {
        self.nodes.get_mut(path).unwrap().generation += 1;
    }

    fn stamp(&mut self, path: &str) -> Option<Stamp> {
        self.calls += 1;
        let node = self.nodes.get(path)?;
        Some(Stamp {
            device: 7,
            inode: node.inode,
            birth: Timestamp {
                seconds: 90,
                nanos: 1,
            },
            modified: Timestamp {
                seconds: 100,
                nanos: 1,
            },
            changed: Timestamp {
                seconds: 100,
                nanos: 1,
            },
            generation: if self.unstable {
                self.calls
            } else {
                node.generation
            },
            volume: [1; 16],
            fsid: [1, 2],
        })
    }

    fn names(&self, path: &str) -> Vec<(Vec<u8>, EntryType)> {
        let prefix = format!("{path}/");
        self.nodes
            .iter()
            .filter_map(|(found, node)| {
                let name = found.strip_prefix(&prefix)?;
                (!name.contains('/')).then_some((name.as_bytes().to_vec(), node.kind))
            })
            .collect()
    }

    fn full_walk(&self, root: &str) -> Option<Vec<DiscoveredEntry>> {
        self.nodes.get(root)?;
        let inside = format!("{root}/");
        Some(
            self.nodes
                .iter()
                .filter(|(path, _)| path.as_str() == root || path.starts_with(&inside))
                .map(|(path, node)| DiscoveredEntry {
                    path: FilePath::new(path.as_bytes().to_vec()),
                    depth: path.matches('/').count() - root.matches('/').count(),
                    file_type: node.kind,
                })
                .collect(),
        )
    }

    fn request(&self, previous: Option<DirectoryInventory>) -> DiscoveryInventory {
        DiscoveryInventory::with_observer(previous, PROJECTION, self.epoch, Some(self.now))
    }

    /// Walks a root, and falls back to a full walk where the inventory asks for one.
    fn walk(&mut self, inventory: &mut DiscoveryInventory, root: &str) -> Option<Vec<String>> {
        let entries = match self.reusing_walk(inventory, root) {
            Some(entries) => entries,
            None => {
                let entries = self.full_walk(root).unwrap_or_default();
                inventory.record_full_walk(&entries);
                if entries.is_empty() {
                    return None;
                }
                entries
            }
        };
        Some(spelled(&entries))
    }

    fn reusing_walk(
        &mut self,
        inventory: &mut DiscoveryInventory,
        root: &str,
    ) -> Option<Vec<DiscoveredEntry>> {
        let path = FilePath::new(root.as_bytes().to_vec());
        let since = inventory.admit_walk(&path, self.epoch, Some(self.now))?;
        let kind = self.nodes.get(root).map(|node| node.kind);
        let mut walk = inventory.start_walk(path, since, kind)?;
        while let Some(directory) = walk.next_directory() {
            let name = String::from_utf8(directory.bytes().clone()).unwrap();
            let before = self.stamp(&name);
            let lookup = inventory.look_up(&walk, before, Some(self.now));
            let (again, reopened) = (self.stamp(&name), self.stamp(&name));
            if inventory.settle(&mut walk, before, &lookup, true, again, reopened) {
                continue;
            }
            let names = Some(self.names(&name));
            let (again, reopened) = (self.stamp(&name), self.stamp(&name));
            inventory.enumerated(&mut walk, before, &lookup, names, true, again, reopened);
        }
        inventory.end_walk(walk, self.epoch, Some(self.now))
    }

    fn oracle(&self, root: &str) -> Option<Vec<String>> {
        self.full_walk(root).map(|entries| spelled(&entries))
    }

    fn populate(&mut self, root: &str) -> DirectoryInventory {
        let mut inventory = self.request(None);
        let oracle = self.oracle(root);
        assert_eq!(self.walk(&mut inventory, root), oracle);
        inventory.finish(self.epoch, Some(self.now)).unwrap()
    }
}

fn spelled(entries: &[DiscoveredEntry]) -> Vec<String> {
    let mut paths: Vec<String> = entries
        .iter()
        .map(|entry| String::from_utf8(entry.path.bytes().clone()).unwrap())
        .collect();
    paths.sort();
    paths
}

#[test]
fn unchanged_inventory_reuses_every_directory_without_candidate_stats() {
    let mut world = World::new();
    world.directory("/root/empty");
    world.directory("/root/nested");
    world.file("/root/nested/file.jsonl");
    world.file("/root/unindexed.txt");
    let cache = world.populate(ROOT);
    let mut inventory = world.request(Some(cache));
    let oracle = world.oracle(ROOT);
    assert_eq!(world.walk(&mut inventory, ROOT), oracle);
    assert_eq!(inventory.counters().directories_reused, 3);
    assert_eq!(inventory.counters().directories_enumerated, 0);
    assert_eq!(inventory.counters().metadata_checks, 1);
}

#[test]
fn unchanged_ancestor_does_not_hide_new_nested_descendants() {
    let mut world = World::new();
    world.directory("/root/nested");
    let cache = world.populate(ROOT);
    world.directory("/root/nested/new");
    world.file("/root/nested/new/session.jsonl");
    world.bump("/root/nested");
    let mut inventory = world.request(Some(cache));
    let oracle = world.oracle(ROOT);
    assert_eq!(world.walk(&mut inventory, ROOT), oracle);
    assert_eq!(inventory.counters().directories_reused, 1);
    assert_eq!(inventory.counters().directories_enumerated, 2);
}

#[test]
fn same_count_rename_and_type_replacement_reenumerate_membership() {
    let mut world = World::new();
    world.file("/root/old");
    let cache = world.populate(ROOT);
    world.rename("/root/old", "/root/new");
    world.bump(ROOT);
    let mut inventory = world.request(Some(cache));
    let oracle = world.oracle(ROOT);
    assert_eq!(world.walk(&mut inventory, ROOT), oracle);
    assert_eq!(inventory.counters().directories_reused, 0);
    let cache = inventory.finish(world.epoch, Some(world.now)).unwrap();
    world.rename("/root/new", "/root/moved");
    world.directory("/root/new");
    world.file("/root/new/nested");
    world.bump(ROOT);
    let mut inventory = world.request(Some(cache));
    let oracle = world.oracle(ROOT);
    assert_eq!(world.walk(&mut inventory, ROOT), oracle);
}

#[test]
fn mutation_during_observation_uses_original_walk_and_invalidates() {
    let mut world = World::new();
    world.file("/root/visible.jsonl");
    let cache = world.populate(ROOT);
    world.unstable = true;
    let mut inventory = world.request(Some(cache));
    let oracle = world.oracle(ROOT);
    assert_eq!(world.walk(&mut inventory, ROOT), oracle);
    assert_eq!(inventory.counters().directories_reused, 0);
    assert_eq!(inventory.counters().fallback_walks, 1);
    assert!(inventory.finish(world.epoch, Some(world.now)).is_none());
}

#[test]
fn reboot_remount_and_projection_changes_reject_prior_inventory() {
    let mut world = World::new();
    let cache = world.populate(ROOT);
    let epoch = cache.epoch;
    let mut remounted = epoch;
    remounted.mounts += 1;
    world.epoch = Some(remounted);
    let mut inventory = world.request(Some(cache.clone()));
    let oracle = world.oracle(ROOT);
    assert_eq!(world.walk(&mut inventory, ROOT), oracle);
    assert_eq!(inventory.counters().directories_reused, 0);
    let mut rebooted = epoch;
    rebooted.boot[0] = b'b';
    world.epoch = Some(rebooted);
    let mut inventory = world.request(Some(cache.clone()));
    world.walk(&mut inventory, ROOT);
    assert_eq!(inventory.counters().directories_reused, 0);
    world.epoch = Some(epoch);
    let mut inventory = DiscoveryInventory::with_observer(
        Some(cache.clone()),
        b"different-roots",
        world.epoch,
        Some(world.now),
    );
    world.walk(&mut inventory, ROOT);
    assert_eq!(inventory.counters().directories_reused, 0);
    let mut inventory = world.request(Some(cache));
    world.walk(&mut inventory, ROOT);
    assert_eq!(inventory.counters().directories_reused, 1);
}

#[test]
fn unsupported_epoch_and_clock_regression_preserve_full_discovery() {
    let mut world = World::new();
    world.file("/root/file");
    let cache = world.populate(ROOT);
    let mut inventory = world.request(Some(cache.clone()));
    world.now.seconds -= 1;
    let oracle = world.oracle(ROOT);
    assert_eq!(world.walk(&mut inventory, ROOT), oracle);
    assert!(inventory.finish(world.epoch, Some(world.now)).is_none());
    world.epoch = None;
    let mut inventory = world.request(Some(cache));
    assert_eq!(world.walk(&mut inventory, ROOT), oracle);
    assert_eq!(inventory.counters().directories_reused, 0);
    assert!(inventory.finish(world.epoch, Some(world.now)).is_none());
}

#[test]
fn uncertain_timestamps_and_zero_generation_are_ineligible() {
    let mut world = World::new();
    let stamp = world.stamp(ROOT).unwrap();
    let now = world.now;
    assert!(stamp.eligible(now));
    let mut zero = stamp;
    zero.generation = 0;
    assert!(!zero.eligible(now));
    let mut coarse = stamp;
    coarse.changed.nanos = 0;
    assert!(!coarse.eligible(now));
    let mut recent = stamp;
    recent.changed = now;
    assert!(!recent.eligible(now));
    let mut future = stamp;
    future.modified.seconds = now.seconds + 1;
    assert!(!future.eligible(now));
    let mut invalid = stamp;
    invalid.changed.nanos = 1_000_000_000;
    assert!(!invalid.eligible(now));
}

#[test]
fn cache_paths_cannot_escape_and_invalid_inventory_is_explicit_null() {
    let mut world = World::new();
    world.file("/root/safe");
    let cache = world.populate(ROOT);
    let oracle = world.oracle(ROOT);
    for name in [
        b"../escape".as_slice(),
        b"/absolute",
        b".",
        b"..",
        b"",
        b"nul\0name",
    ] {
        let mut malformed = cache.clone();
        malformed.children.0[0].name = BoundedVec(name.to_vec());
        let mut inventory = world.request(Some(malformed));
        assert_eq!(world.walk(&mut inventory, ROOT), oracle);
        assert_eq!(inventory.counters().directories_reused, 0);
    }
    assert!(cache.valid(PROJECTION, &cache.epoch, world.now));
    let mut duplicate = cache.clone();
    let again = duplicate.directories.0[0].clone();
    duplicate.directories.0.push(again);
    assert!(!duplicate.valid(PROJECTION, &cache.epoch, world.now));
    let mut unknown = cache.clone();
    unknown.version += 1;
    assert!(!unknown.valid(PROJECTION, &cache.epoch, world.now));
    let mut bounded: BoundedVec<u8, 2> = BoundedVec(Vec::new());
    assert!(bounded.push(1));
    assert!(bounded.push(2));
    assert!(!bounded.push(3));
    assert_eq!(bounded.0, [1, 2]);
    assert!(!BoundedVec::<u8, 2>::admits(Some(3)));
    assert!(BoundedVec::<u8, 2>::admits(Some(2)));
    assert!(BoundedVec::<u8, 2>::admits(None));
}

#[test]
fn raw_names_round_trip_without_utf8_conversion() {
    let name = b"session-\xff.jsonl";
    assert!(valid_name(name));
    let native = decode_name(name).unwrap();
    assert_eq!(encode_name(&native).unwrap(), name);
    let stored: Bytes<MAX_NAME_BYTES> = BoundedVec(name.to_vec());
    let encoded = serde_json::to_vec(&stored.0).unwrap();
    let decoded: Bytes<MAX_NAME_BYTES> = BoundedVec(serde_json::from_slice(&encoded).unwrap());
    assert_eq!(decoded.0, name);
}

#[test]
fn root_symlink_is_followed_but_child_symlinks_are_not() {
    let mut world = World::new();
    world.directory("/target");
    world.file("/target/file.jsonl");
    world.make("/target/loop", EntryType::Symlink);
    world.make("/root-link", EntryType::Symlink);
    world.file("/root-link/file.jsonl");
    world.make("/root-link/loop", EntryType::Symlink);
    let mut inventory = world.request(None);
    let oracle = world.oracle("/root-link");
    assert!(world.reusing_walk(&mut inventory, "/root-link").is_none());
    let entries = world.full_walk("/root-link").unwrap();
    assert_eq!(entries[0].file_type, EntryType::Symlink);
    assert_eq!(world.walk(&mut inventory, "/root-link"), oracle);
    assert_eq!(inventory.counters().fallback_walks, 1);
    let mut inventory = world.request(None);
    let oracle = world.oracle("/target");
    assert_eq!(world.walk(&mut inventory, "/target"), oracle);
    assert_eq!(inventory.counters().fallback_walks, 0);
    assert_eq!(inventory.counters().directories_checked, 1);
}

#[test]
fn missing_root_can_appear_on_the_next_request() {
    let owned = tempfile::tempdir().unwrap();
    let error = walkdir::WalkDir::new(owned.path().join("missing"))
        .into_iter()
        .next()
        .unwrap()
        .err()
        .unwrap();
    assert_eq!(
        error.io_error().unwrap().kind(),
        std::io::ErrorKind::NotFound
    );
    let mut world = World::new();
    let mut inventory = world.request(None);
    assert!(world.reusing_walk(&mut inventory, "/missing").is_none());
    assert_eq!(world.walk(&mut inventory, "/missing"), None);
    assert!(inventory.finish(world.epoch, Some(world.now)).is_none());
    world.directory("/missing");
    world.file("/missing/new.jsonl");
    let mut inventory = world.request(None);
    let oracle = world.oracle("/missing");
    assert_eq!(world.walk(&mut inventory, "/missing"), oracle);
}

#[test]
fn entries_come_parents_first_and_subtrees_together() {
    let mut world = World::new();
    world.directory("/root/b");
    world.file("/root/b/x");
    world.directory("/root/a");
    world.file("/root/a/y");
    world.file("/root/c");
    let mut inventory = world.request(None);
    let entries = world.reusing_walk(&mut inventory, ROOT).unwrap();
    let order: Vec<(String, usize)> = entries
        .iter()
        .map(|entry| {
            (
                String::from_utf8(entry.path.bytes().clone()).unwrap(),
                entry.depth,
            )
        })
        .collect();
    let expected = [
        ("/root", 0),
        ("/root/a", 1),
        ("/root/a/y", 2),
        ("/root/b", 1),
        ("/root/b/x", 2),
        ("/root/c", 1),
    ];
    assert_eq!(order.len(), expected.len());
    for (found, wanted) in order.iter().zip(expected) {
        assert_eq!((found.0.as_str(), found.1), wanted);
    }
}

#[test]
fn relative_roots_and_large_projections_are_not_recorded() {
    let mut world = World::new();
    world.make("relative", EntryType::Directory);
    let mut inventory = world.request(None);
    assert!(world.walk(&mut inventory, "relative").is_some());
    assert_eq!(inventory.counters().fallback_walks, 1);
    assert_eq!(inventory.counters().metadata_checks, 0);
    let projection = vec![0u8; MAX_PROJECTION_BYTES + 1];
    let mut inventory =
        DiscoveryInventory::with_observer(None, &projection, world.epoch, Some(world.now));
    assert!(world.walk(&mut inventory, ROOT).is_some());
    assert!(inventory.finish(world.epoch, Some(world.now)).is_none());
}

#[test]
fn a_failed_listing_invalidates_the_inventory() {
    let mut world = World::new();
    let path = FilePath::new(ROOT.as_bytes().to_vec());
    let mut inventory = world.request(None);
    let since = inventory
        .admit_walk(&path, world.epoch, Some(world.now))
        .unwrap();
    let mut walk = inventory
        .start_walk(path, since, Some(EntryType::Directory))
        .unwrap();
    assert!(walk.next_directory().is_some());
    let before = world.stamp(ROOT);
    let lookup = inventory.look_up(&walk, before, Some(world.now));
    assert!(lookup.eligible && lookup.cached.is_none());
    inventory.enumerated(&mut walk, before, &lookup, None, true, before, before);
    assert!(walk.next_directory().is_none());
    assert!(inventory
        .end_walk(walk, world.epoch, Some(world.now))
        .is_none());
    assert!(inventory.finish(world.epoch, Some(world.now)).is_none());
}

#[test]
fn finished_inventories_are_valid_for_the_next_request() {
    let mut world = World::new();
    world.directory("/root/nested");
    world.file("/root/nested/file.jsonl");
    let cache = world.populate(ROOT);
    assert_eq!(cache.version, 1);
    assert_eq!(cache.directories.0.len(), 2);
    assert_eq!(cache.children.0.len(), 2);
    assert_eq!(cache.directories.0[0].relative.0, b"");
    assert_eq!(cache.directories.0[1].relative.0, b"nested");
    assert_eq!(cache.directories.0[1].start, 1);
    assert_eq!(cache.directories.0[1].len, 1);
    assert_eq!(cache.children.0[1].name.0, b"file.jsonl");
    let mut later = world.now;
    later.seconds += 5;
    assert!(cache.valid(PROJECTION, &cache.epoch, later));
    let mut earlier = world.now;
    earlier.seconds -= 1;
    assert!(!cache.valid(PROJECTION, &cache.epoch, earlier));
}

#[test]
fn paths_are_stored_only_where_they_fit() {
    assert!(storable(b"/a/b"));
    assert_eq!(encode_path(b"/a/b").unwrap(), b"/a/b");
    assert_eq!(decode_path(b"/a/b").unwrap().bytes(), b"/a/b");
    let long = vec![b'a'; 4097];
    assert!(!storable(&long));
    assert!(encode_path(&long).is_none());
    assert!(decode_path(&long).is_none());
    assert!(decode_path(b"a\0b").is_none());
    assert!(!valid_name(&vec![b'a'; 1025]));
    assert!(encode_name(b"a/b").is_none());
    assert!(decode_name(b"..").is_none());
}

#[test]
fn timestamps_compare_by_seconds_and_nanos() {
    let at = |seconds: i64, nanos: u32| Timestamp { seconds, nanos };
    assert!(at(1, 5).is_earlier(at(2, 0)));
    assert!(at(1, 5).is_earlier(at(1, 6)));
    assert!(!at(1, 5).is_earlier(at(1, 5)));
    assert!(is_observed_earlier(None, Some(at(0, 0))));
    assert!(!is_observed_earlier(None, None));
    assert!(!is_observed_earlier(Some(at(0, 0)), None));
    assert_eq!(Timestamp::from_elapsed(3, 4), Some(at(3, 4)));
    assert_eq!(Timestamp::from_elapsed(u64::MAX, 0), None);
    assert_eq!(Timestamp::from_metadata(3, 4), Some(at(3, 4)));
    assert_eq!(Timestamp::from_metadata(-1, 4), None);
    assert_eq!(Timestamp::from_metadata(3, 1_000_000_000), None);
    assert!(at(998, 1).settled(at(1_000, 1)));
    assert!(!at(1_000, 0).settled(at(1_000, 1)));
}

#[test]
fn boot_sessions_are_read_from_the_reported_text() {
    let mut reported = [0u8; 37];
    reported[..36].copy_from_slice(b"01234567-89ab-CDEF-0123-456789abcdef");
    let epoch = reported_epoch(&reported, 9).unwrap();
    assert_eq!(&epoch.boot, b"0123456789abCDEF0123456789abcdef");
    assert_eq!(epoch.mounts, 9);
    reported[0] = b'g';
    assert!(reported_epoch(&reported, 9).is_none());
    reported[0] = b'0';
    reported[36] = b'x';
    assert!(reported_epoch(&reported, 9).is_none());
}

#[test]
fn listings_skip_the_directory_itself_and_fail_as_a_whole() {
    assert!(matches!(classify_listed(b".", 4), Listed::Skipped));
    assert!(matches!(classify_listed(b"..", 4), Listed::Skipped));
    assert!(matches!(
        classify_listed(b"a", 8),
        Listed::Known(EntryType::File)
    ));
    assert!(matches!(
        classify_listed(b"a", 4),
        Listed::Known(EntryType::Directory)
    ));
    assert!(matches!(
        classify_listed(b"a", 10),
        Listed::Known(EntryType::Symlink)
    ));
    assert!(matches!(
        classify_listed(b"a", 12),
        Listed::Known(EntryType::Other)
    ));
    assert!(matches!(classify_listed(b"a", 0), Listed::Unknown));
    let mut reader = ListingReader::new();
    reader.read(b".", 4, None);
    reader.read(b"file", 8, None);
    reader.read(b"odd", 0, Some(EntryType::Directory));
    assert_eq!(
        reader.finish().unwrap(),
        [
            (b"file".to_vec(), EntryType::File),
            (b"odd".to_vec(), EntryType::Directory),
        ]
    );
    let mut reader = ListingReader::new();
    reader.read(b"odd", 0, None);
    reader.read(b"file", 8, None);
    assert!(reader.finish().is_none());
    assert!(attribute_returned(44, 44, 0x10, 0x10));
    assert!(!attribute_returned(43, 44, 0x10, 0x10));
    assert!(!attribute_returned(44, 44, 0x20, 0x10));
}

#[test]
fn kinds_of_entries_are_told_apart_in_order() {
    assert_eq!(EntryType::of(true, false, false), EntryType::File);
    assert_eq!(EntryType::of(false, true, false), EntryType::Directory);
    assert_eq!(EntryType::of(false, false, true), EntryType::Symlink);
    assert_eq!(EntryType::of(false, false, false), EntryType::Other);
}

#[test]
fn recorded_listings_are_used_only_for_directories_that_stayed() {
    let mut world = World::new();
    world.file("/root/file");
    let cache = world.populate(ROOT);
    let stamp = world.stamp(ROOT);
    world.bump(ROOT);
    let changed = world.stamp(ROOT);
    for (anchored, again, reopened, reused) in [
        (true, stamp, stamp, true),
        (false, stamp, stamp, false),
        (true, changed, stamp, false),
        (true, stamp, changed, false),
        (true, stamp, None, false),
    ] {
        assert_eq!(stable(anchored, stamp, again, reopened), reused);
        let path = FilePath::new(ROOT.as_bytes().to_vec());
        let mut inventory = world.request(Some(cache.clone()));
        let since = inventory
            .admit_walk(&path, world.epoch, Some(world.now))
            .unwrap();
        let mut walk = inventory
            .start_walk(path, since, Some(EntryType::Directory))
            .unwrap();
        assert!(walk.next_directory().is_some());
        let lookup = inventory.look_up(&walk, stamp, Some(world.now));
        assert!(lookup.cached.is_some());
        let settled = inventory.settle(&mut walk, stamp, &lookup, anchored, again, reopened);
        assert_eq!(settled, reused);
        assert_eq!(
            inventory.counters().directories_reused,
            if reused { 1 } else { 0 }
        );
        assert_eq!(walk.next_directory().is_none(), reused);
    }
}

#[test]
fn a_listing_that_is_stored_again_counts_once() {
    let mut world = World::new();
    let stamp = world.stamp(ROOT);
    let mut inventory = world.request(None);
    let children = |count: usize| {
        (0..count)
            .map(|n| Child {
                name: BoundedVec(format!("{n:05}").into_bytes()),
                kind: EntryType::File,
            })
            .collect::<Vec<_>>()
    };
    let key = |name: &str| Some((ROOT.as_bytes().to_vec(), name.as_bytes().to_vec()));
    for _ in 0..3 {
        inventory.store(key("a"), stamp, children(MAX_CHILDREN - 1));
    }
    inventory.store(key("b"), stamp, children(1));
    inventory.store(None, stamp, children(1));
    inventory.store(key("c"), None, children(1));
    let finished = inventory.finish(world.epoch, Some(world.now)).unwrap();
    assert_eq!(finished.directories.0.len(), 2);
    assert_eq!(finished.children.0.len(), MAX_CHILDREN);

    let mut inventory = world.request(None);
    inventory.store(key("a"), stamp, children(MAX_CHILDREN));
    inventory.store(key("b"), stamp, children(1));
    assert!(inventory.finish(world.epoch, Some(world.now)).is_none());
}
