//! The supporting pieces: path strings, the keyed store, the association
//! map, the snapshot, and the watch-adapter mirror.

use fs_cache::assoc::AssocMap;
use fs_cache::paths::{check_path_valid, is_root, join, leaf, normalize_path, parent, str_eq};
use fs_cache::snapshot::{FsNode, FsSnapshot, MAX_LINK_FOLLOW};
use fs_cache::store::Arena;
use fs_cache::watcher::{WatchAction, Watcher};

#[test]
fn path_parent_and_leaf() {
    assert_eq!(parent("/a/b/c").unwrap(), "/a/b");
    assert_eq!(parent("/a").unwrap(), "/");
    assert!(parent("/").is_none());
    assert_eq!(leaf("/a/b/c"), "c");
    assert_eq!(leaf("/a"), "a");
}

#[test]
fn path_join_round_trip() {
    let j = join("/a/b", "c.log");
    assert_eq!(j, "/a/b/c.log");
    assert_eq!(parent(j.as_str()).unwrap(), "/a/b");
    assert_eq!(leaf(j.as_str()), "c.log");
    assert_eq!(join("/", "etc"), "/etc");
}

#[test]
fn path_helpers() {
    assert!(is_root("/"));
    assert!(!is_root("/a"));
    assert!(str_eq("abc", "abc"));
    assert!(!str_eq("abc", "abd"));
    assert!(!str_eq("abc", "ab"));
}

#[test]
fn path_normalization() {
    assert_eq!(normalize_path("/a/b/").unwrap(), "/a/b");
    assert_eq!(normalize_path("/a/b///").unwrap(), "/a/b");
    assert_eq!(normalize_path("/").unwrap(), "/");
    assert_eq!(normalize_path("/a/b").unwrap(), "/a/b");
    assert!(normalize_path("relative/path").is_none());
    assert!(normalize_path("/a//b").is_none());
    assert!(normalize_path("").is_none());
    assert!(check_path_valid("/var/log"));
    assert!(!check_path_valid("/var/log/"));
    assert!(!check_path_valid("var"));
}

#[test]
fn arena_keys_stay_stable_until_removed() {
    let mut arena: Arena<u64> = Arena::new();
    let k1 = arena.insert(10);
    let k2 = arena.insert(20);
    assert_eq!(arena.len(), 2);
    assert_eq!(*arena.get(k1).unwrap(), 10);
    assert_eq!(*arena.get(k2).unwrap(), 20);
    assert_eq!(arena.remove(k1), Some(10));
    assert!(arena.get(k1).is_none());
    assert_eq!(arena.len(), 1);
    // the freed slot is reused, but under a fresh key
    let k3 = arena.insert(30);
    assert_ne!(k1, k3);
    assert!(arena.get(k1).is_none());
    assert_eq!(*arena.get(k3).unwrap(), 30);
}

#[test]
fn arena_take_and_put_back() {
    let mut arena: Arena<u64> = Arena::new();
    let k = arena.insert(7);
    let v = arena.take(k);
    assert_eq!(v, 7);
    assert!(arena.get(k).is_none());
    arena.put_back(k, 8);
    assert_eq!(*arena.get(k).unwrap(), 8);
}

#[test]
fn assoc_map_binds_and_unbinds() {
    let mut m: AssocMap<u32> = AssocMap::new();
    assert!(m.get("a").is_none());
    assert!(m.insert_new("a".to_string(), 1));
    assert!(!m.insert_new("a".to_string(), 2));
    assert_eq!(*m.get("a").unwrap(), 1);
    m.set("a".to_string(), 3);
    assert_eq!(*m.get("a").unwrap(), 3);
    assert_eq!(m.remove("a"), Some(3));
    assert!(m.remove("a").is_none());
}

#[test]
fn snapshot_resolves_symlink_chains() {
    let mut snap = FsSnapshot::new();
    snap.set("/f".to_string(), FsNode::File);
    snap.set(
        "/s1".to_string(),
        FsNode::Symlink {
            target: "/f".to_string(),
        },
    );
    snap.set(
        "/s2".to_string(),
        FsNode::Symlink {
            target: "/s1".to_string(),
        },
    );
    assert!(matches!(
        snap.resolve("/s2", MAX_LINK_FOLLOW),
        Some(FsNode::File)
    ));
    assert!(snap.path_exists("/s2"));
    assert!(!snap.path_exists("/missing"));
}

#[test]
fn snapshot_link_cycle_does_not_resolve() {
    let mut snap = FsSnapshot::new();
    snap.set(
        "/a".to_string(),
        FsNode::Symlink {
            target: "/b".to_string(),
        },
    );
    snap.set(
        "/b".to_string(),
        FsNode::Symlink {
            target: "/a".to_string(),
        },
    );
    assert!(snap.resolve("/a", MAX_LINK_FOLLOW).is_none());
    assert!(!snap.path_exists("/a"));
}

#[test]
fn watcher_mirror_records_actions() {
    let mut w = Watcher::new();
    w.watch(&"/a".to_string());
    w.watch(&"/b".to_string());
    w.unwatch(&"/a".to_string());
    // unwatching an unwatched path is a non-error and records nothing
    w.unwatch(&"/missing".to_string());
    let pending = w.drain_pending();
    assert_eq!(
        pending,
        vec![
            WatchAction::Watch("/a".to_string()),
            WatchAction::Watch("/b".to_string()),
            WatchAction::Unwatch("/a".to_string()),
        ]
    );
    assert!(w.drain_pending().is_empty());
}
