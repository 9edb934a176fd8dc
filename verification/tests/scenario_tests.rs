//! End-to-end scenarios driving the cache over synthetic filesystem
//! snapshots.

use fs_cache::cache::{FileSystem, FsError};
use fs_cache::event::Event;
use fs_cache::rule::{GlobRule, Matcher, Rules};
use fs_cache::snapshot::{FsNode, FsSnapshot};
use fs_cache::watcher::{Event as WatchEvent, WatchAction, WatchError};

fn match_all_rules() -> Rules {
    let mut rules = Rules::new();
    rules.add_inclusion(Matcher::Glob(GlobRule::new("**").unwrap()));
    rules
}

fn dir(children: &[&str]) -> FsNode {
    FsNode::Dir {
        children: children.iter().map(|c| c.to_string()).collect(),
    }
}

/// S1: a file that exists before startup yields exactly one Initialize per
/// reachable entry, and is afterwards tracked as a file.
#[test]
fn init_with_existing_file() {
    let mut snap = FsSnapshot::new();
    snap.set("/d".to_string(), dir(&["a.log"]));
    snap.set("/d/a.log".to_string(), FsNode::File);

    let mut fs = FileSystem::new(vec!["/d".to_string()], match_all_rules(), &snap);
    let init = fs.take_initial_events();
    assert_eq!(init.len(), 2);
    for e in &init {
        assert!(matches!(e, Event::Initialize(_)));
    }
    let k = fs.lookup("/d/a.log").expect("file tracked");
    assert!(matches!(
        fs.entry(k).unwrap(),
        fs_cache::entry::Entry::File { .. }
    ));
    let kd = fs.lookup("/d").expect("root tracked");
    assert!(matches!(
        fs.entry(kd).unwrap(),
        fs_cache::entry::Entry::Dir { .. }
    ));
}

/// S2: rotation by rename; the new file then coexists with the renamed one.
#[test]
fn rotate_by_rename() {
    let mut snap = FsSnapshot::new();
    snap.set("/d".to_string(), dir(&[]));
    let mut fs = FileSystem::new(vec!["/d".to_string()], match_all_rules(), &snap);
    let _ = fs.take_initial_events();
    let mut events = Vec::new();

    snap.set("/d".to_string(), dir(&["a"]));
    snap.set("/d/a".to_string(), FsNode::File);
    fs.process(WatchEvent::Create("/d/a".to_string()), &snap, &mut events)
        .unwrap();
    let ka = fs.lookup("/d/a").expect("a tracked");
    assert!(matches!(events.last().unwrap(), Event::New(_)));
    assert!(matches!(
        fs.entry(ka).unwrap(),
        fs_cache::entry::Entry::File { .. }
    ));

    snap.remove("/d/a");
    snap.set("/d".to_string(), dir(&["a.new"]));
    snap.set("/d/a.new".to_string(), FsNode::File);
    fs.process(
        WatchEvent::Rename("/d/a".to_string(), "/d/a.new".to_string()),
        &snap,
        &mut events,
    )
    .unwrap();
    assert!(fs.lookup("/d/a").is_none());
    let kn = fs.lookup("/d/a.new").expect("a.new tracked");
    assert_eq!(kn, ka);
    assert!(matches!(
        fs.entry(kn).unwrap(),
        fs_cache::entry::Entry::File { .. }
    ));

    snap.set("/d".to_string(), dir(&["a.new", "a"]));
    snap.set("/d/a".to_string(), FsNode::File);
    fs.process(WatchEvent::Create("/d/a".to_string()), &snap, &mut events)
        .unwrap();
    assert!(fs.lookup("/d/a").is_some());
    assert!(fs.lookup("/d/a.new").is_some());
}

/// S3: rotation by copy and delete; re-creating the removed file restores it.
#[test]
fn rotate_by_copy_delete() {
    let mut snap = FsSnapshot::new();
    snap.set("/d".to_string(), dir(&["a"]));
    snap.set("/d/a".to_string(), FsNode::File);
    let mut fs = FileSystem::new(vec!["/d".to_string()], match_all_rules(), &snap);
    let _ = fs.take_initial_events();
    let mut events = Vec::new();

    snap.set("/d".to_string(), dir(&["a", "a.old"]));
    snap.set("/d/a.old".to_string(), FsNode::File);
    fs.process(
        WatchEvent::Create("/d/a.old".to_string()),
        &snap,
        &mut events,
    )
    .unwrap();

    let ka = fs.lookup("/d/a").unwrap();
    snap.remove("/d/a");
    snap.set("/d".to_string(), dir(&["a.old"]));
    fs.process(WatchEvent::Remove("/d/a".to_string()), &snap, &mut events)
        .unwrap();
    assert!(fs.lookup("/d/a").is_none());
    assert!(fs.lookup("/d/a.old").is_some());
    assert!(events.contains(&Event::Delete(ka)));

    snap.set("/d".to_string(), dir(&["a.old", "a"]));
    snap.set("/d/a".to_string(), FsNode::File);
    fs.process(WatchEvent::Create("/d/a".to_string()), &snap, &mut events)
        .unwrap();
    assert!(fs.lookup("/d/a").is_some());
}

/// S4: removing a filled directory's contents removes file, symlink and
/// hardlink entries, while the initial root itself survives.
#[test]
fn filled_dir_delete_of_root() {
    let mut snap = FsSnapshot::new();
    snap.set("/d".to_string(), dir(&["f", "s", "h"]));
    snap.set("/d/f".to_string(), FsNode::File);
    snap.set(
        "/d/s".to_string(),
        FsNode::Symlink {
            target: "/d/f".to_string(),
        },
    );
    snap.set("/d/h".to_string(), FsNode::File);
    let mut fs = FileSystem::new(vec!["/d".to_string()], match_all_rules(), &snap);
    let _ = fs.take_initial_events();
    assert!(fs.lookup("/d/f").is_some());
    assert!(fs.lookup("/d/s").is_some());
    assert!(fs.lookup("/d/h").is_some());

    let mut events = Vec::new();
    snap.remove("/d/f");
    snap.remove("/d/s");
    snap.remove("/d/h");
    snap.set("/d".to_string(), dir(&[]));
    for p in ["/d/f", "/d/s", "/d/h", "/d"] {
        fs.process(WatchEvent::Remove(p.to_string()), &snap, &mut events)
            .unwrap();
    }
    assert!(fs.lookup("/d/f").is_none());
    assert!(fs.lookup("/d/s").is_none());
    assert!(fs.lookup("/d/h").is_none());
    assert!(fs.lookup("/d").is_some(), "initial root survives");
}

/// S5: a symlink whose local scope admits its target grants the excluded
/// target admission; both become tracked.
#[test]
fn symlink_to_excluded_target() {
    let mut rules = Rules::new();
    rules.add_inclusion(Matcher::Glob(GlobRule::new("*.log").unwrap()));
    rules.add_inclusion(Matcher::Glob(GlobRule::new("/d*").unwrap()));
    rules.add_exclusion(Matcher::Glob(GlobRule::new("*.tmp").unwrap()));

    let mut snap = FsSnapshot::new();
    snap.set("/d".to_string(), dir(&["t.tmp"]));
    snap.set("/d/t.tmp".to_string(), FsNode::File);
    let mut fs = FileSystem::new(vec!["/d".to_string()], rules, &snap);
    let _ = fs.take_initial_events();
    assert!(fs.lookup("/d/t.tmp").is_none(), "excluded target untracked");

    let mut events = Vec::new();
    snap.set("/d".to_string(), dir(&["t.tmp", "t.log"]));
    snap.set(
        "/d/t.log".to_string(),
        FsNode::Symlink {
            target: "/d/t.tmp".to_string(),
        },
    );
    fs.process(
        WatchEvent::Create("/d/t.log".to_string()),
        &snap,
        &mut events,
    )
    .unwrap();
    let ks = fs.lookup("/d/t.log").expect("symlink tracked");
    assert!(matches!(
        fs.entry(ks).unwrap(),
        fs_cache::entry::Entry::Symlink { .. }
    ));
    assert!(
        fs.lookup("/d/t.tmp").is_some(),
        "symlink grants its target admission"
    );
}

/// S6: moving a root out of the watched set: the rename classifies as a
/// removal of the source, the root is protected, and nothing is ever
/// tracked under the destination.
#[test]
fn move_dir_out_of_root() {
    let mut snap = FsSnapshot::new();
    snap.set("/d".to_string(), dir(&["old"]));
    snap.set("/d/old".to_string(), dir(&["f"]));
    snap.set("/d/old/f".to_string(), FsNode::File);
    let mut fs = FileSystem::new(vec!["/d/old".to_string()], match_all_rules(), &snap);
    let _ = fs.take_initial_events();
    assert!(fs.lookup("/d/old/f").is_some());

    let mut events = Vec::new();
    snap.remove("/d/old/f");
    snap.remove("/d/old");
    snap.set("/d".to_string(), dir(&["new"]));
    snap.set("/d/new".to_string(), dir(&["f"]));
    snap.set("/d/new/f".to_string(), FsNode::File);
    fs.process(
        WatchEvent::Rename("/d/old".to_string(), "/d/new".to_string()),
        &snap,
        &mut events,
    )
    .unwrap();
    assert!(fs.lookup("/d/new").is_none());
    assert!(fs.lookup("/d/new/f").is_none());
}

/// A write notification emits one `Write` per key tracked under the path;
/// an untracked path emits nothing.
#[test]
fn write_events_per_tracked_key() {
    let mut snap = FsSnapshot::new();
    snap.set("/d".to_string(), dir(&["a"]));
    snap.set("/d/a".to_string(), FsNode::File);
    let mut fs = FileSystem::new(vec!["/d".to_string()], match_all_rules(), &snap);
    let _ = fs.take_initial_events();
    let k = fs.lookup("/d/a").unwrap();

    let mut events = Vec::new();
    fs.process(WatchEvent::Write("/d/a".to_string()), &snap, &mut events)
        .unwrap();
    assert_eq!(events, vec![Event::Write(k)]);

    let mut events2 = Vec::new();
    fs.process(
        WatchEvent::Write("/d/missing".to_string()),
        &snap,
        &mut events2,
    )
    .unwrap();
    assert!(events2.is_empty());
}

/// A kernel queue overflow is the one fatal condition.
#[test]
fn overflow_is_fatal() {
    let snap = FsSnapshot::new();
    let mut fs = FileSystem::new(vec!["/d".to_string()], match_all_rules(), &snap);
    let mut events = Vec::new();
    let r = fs.process(
        WatchEvent::Error(WatchError::Overflow, None),
        &snap,
        &mut events,
    );
    assert!(matches!(r, Err(FsError::WatchOverflow)));
    let r2 = fs.process(
        WatchEvent::Error(WatchError::PathNotFound, None),
        &snap,
        &mut events,
    );
    assert!(r2.is_ok());
    assert!(events.is_empty());
}

/// A rescan drops each root's subtree and rebuilds it from the snapshot;
/// no `Initialize` is ever emitted after bootstrap.
#[test]
fn rescan_rebuilds_roots() {
    let mut snap = FsSnapshot::new();
    snap.set("/d".to_string(), dir(&["a"]));
    snap.set("/d/a".to_string(), FsNode::File);
    let mut fs = FileSystem::new(vec!["/d".to_string()], match_all_rules(), &snap);
    let _ = fs.take_initial_events();

    snap.remove("/d/a");
    snap.set("/d".to_string(), dir(&["b"]));
    snap.set("/d/b".to_string(), FsNode::File);
    let mut events = Vec::new();
    fs.process(WatchEvent::Rescan, &snap, &mut events).unwrap();
    assert!(fs.lookup("/d/a").is_none());
    assert!(fs.lookup("/d/b").is_some());
    assert!(fs.lookup("/d").is_some());
    for e in &events {
        assert!(!matches!(e, Event::Initialize(_)));
    }
}

/// A rescan re-tracks a child under its old name: the stale binding is
/// cleared first, so the fresh entry can attach, under a fresh key.
#[test]
fn rescan_reinserts_same_names() {
    let mut snap = FsSnapshot::new();
    snap.set("/d".to_string(), dir(&["a"]));
    snap.set("/d/a".to_string(), FsNode::File);
    let mut fs = FileSystem::new(vec!["/d".to_string()], match_all_rules(), &snap);
    let _ = fs.take_initial_events();
    let ka = fs.lookup("/d/a").unwrap();

    let mut events = Vec::new();
    fs.process(WatchEvent::Rescan, &snap, &mut events).unwrap();
    let ka2 = fs.lookup("/d/a").expect("same-named child re-tracked");
    assert_ne!(ka2, ka, "the rebuilt entry is a fresh one");
    assert!(events.contains(&Event::Delete(ka)));
    assert!(events.contains(&Event::New(ka2)));
}

/// A root that is missing at startup: bootstrap climbs to the nearest
/// existing ancestor.
#[test]
fn missing_root_climbs_to_ancestor() {
    let mut snap = FsSnapshot::new();
    snap.set("/d".to_string(), dir(&[]));
    let mut fs = FileSystem::new(vec!["/d/gone".to_string()], match_all_rules(), &snap);
    let init = fs.take_initial_events();
    assert_eq!(init.len(), 1);
    assert!(fs.lookup("/d").is_some());
    assert!(fs.lookup("/d/gone").is_none());
}

/// A symlink pointing at a directory is tracked as a Symlink entry — the
/// link's own shape wins over what it resolves to — and admits its target.
#[test]
fn symlink_to_directory_is_a_symlink_entry() {
    let mut snap = FsSnapshot::new();
    snap.set("/d".to_string(), dir(&["a"]));
    snap.set("/d/a".to_string(), dir(&[]));
    let mut fs = FileSystem::new(vec!["/d".to_string()], match_all_rules(), &snap);
    let _ = fs.take_initial_events();

    let mut events = Vec::new();
    snap.set("/d".to_string(), dir(&["a", "b"]));
    snap.set(
        "/d/b".to_string(),
        FsNode::Symlink {
            target: "/d/a".to_string(),
        },
    );
    fs.process(WatchEvent::Create("/d/b".to_string()), &snap, &mut events)
        .unwrap();
    let ka = fs.lookup("/d/a").expect("dir tracked");
    assert!(matches!(
        fs.entry(ka).unwrap(),
        fs_cache::entry::Entry::Dir { .. }
    ));
    let kb = fs.lookup("/d/b").expect("symlink tracked");
    match fs.entry(kb).unwrap() {
        fs_cache::entry::Entry::Symlink { link, .. } => assert_eq!(link, "/d/a"),
        _ => panic!("wrong entry type"),
    }
}

/// A symlink to a directory outside the roots admits that directory; when
/// the symlink goes, the no-longer-admitted directory goes with it.
#[test]
fn symlink_to_untracked_dir_tracks_and_cascades() {
    let mut snap = FsSnapshot::new();
    snap.set("/d".to_string(), dir(&["s"]));
    snap.set("/x".to_string(), dir(&["real"]));
    snap.set("/x/real".to_string(), dir(&[]));
    snap.set(
        "/d/s".to_string(),
        FsNode::Symlink {
            target: "/x/real".to_string(),
        },
    );
    let mut fs = FileSystem::new(vec!["/d".to_string()], match_all_rules(), &snap);
    let _ = fs.take_initial_events();
    let ks = fs.lookup("/d/s").expect("symlink tracked");
    assert!(matches!(
        fs.entry(ks).unwrap(),
        fs_cache::entry::Entry::Symlink { .. }
    ));
    let kt = fs.lookup("/x/real").expect("directory admitted by the symlink");
    assert!(matches!(
        fs.entry(kt).unwrap(),
        fs_cache::entry::Entry::Dir { .. }
    ));

    let mut events = Vec::new();
    snap.remove("/d/s");
    snap.set("/d".to_string(), dir(&[]));
    fs.process(WatchEvent::Remove("/d/s".to_string()), &snap, &mut events)
        .unwrap();
    assert!(fs.lookup("/d/s").is_none());
    assert!(fs.lookup("/x/real").is_none(), "orphaned target untracked");
}

/// Deleting the last symlink to a target that passes only through that
/// symlink's grant removes the target as well.
#[test]
fn symlink_removal_cascades_to_granted_target() {
    let mut snap = FsSnapshot::new();
    snap.set("/d".to_string(), dir(&["s"]));
    snap.set("/x".to_string(), dir(&["real"]));
    snap.set("/x/real".to_string(), FsNode::File);
    snap.set(
        "/d/s".to_string(),
        FsNode::Symlink {
            target: "/x/real".to_string(),
        },
    );
    let mut fs = FileSystem::new(vec!["/d".to_string()], match_all_rules(), &snap);
    let _ = fs.take_initial_events();
    assert!(fs.lookup("/d/s").is_some());
    assert!(
        fs.lookup("/x/real").is_some(),
        "target admitted through the symlink"
    );

    let mut events = Vec::new();
    snap.remove("/d/s");
    snap.set("/d".to_string(), dir(&[]));
    fs.process(WatchEvent::Remove("/d/s".to_string()), &snap, &mut events)
        .unwrap();
    assert!(fs.lookup("/d/s").is_none());
    assert!(
        fs.lookup("/x/real").is_none(),
        "target loses admission with its last symlink"
    );
}

/// Deleting a symlink's pointee leaves the symlink tracked: it refers to
/// the target by the path recorded at creation.
#[test]
fn symlink_pointee_removal_keeps_symlink() {
    let mut snap = FsSnapshot::new();
    snap.set("/d".to_string(), dir(&["f", "s"]));
    snap.set("/d/f".to_string(), FsNode::File);
    snap.set(
        "/d/s".to_string(),
        FsNode::Symlink {
            target: "/d/f".to_string(),
        },
    );
    let mut fs = FileSystem::new(vec!["/d".to_string()], match_all_rules(), &snap);
    let _ = fs.take_initial_events();

    let mut events = Vec::new();
    snap.remove("/d/f");
    snap.set("/d".to_string(), dir(&["s"]));
    fs.process(WatchEvent::Remove("/d/f".to_string()), &snap, &mut events)
        .unwrap();
    assert!(fs.lookup("/d/f").is_none());
    assert!(fs.lookup("/d/s").is_some());
}

/// Renaming a directory inside the watched set relocates the directory's
/// own entry; entries below it keep the paths recorded at their creation,
/// as symlink targets do.
#[test]
fn dir_rename_relocates_the_dir_entry() {
    let mut snap = FsSnapshot::new();
    snap.set("/d".to_string(), dir(&["old"]));
    snap.set("/d/old".to_string(), dir(&["f"]));
    snap.set("/d/old/f".to_string(), FsNode::File);
    let mut fs = FileSystem::new(vec!["/d".to_string()], match_all_rules(), &snap);
    let _ = fs.take_initial_events();
    let kd = fs.lookup("/d/old").unwrap();

    let mut events = Vec::new();
    snap.remove("/d/old/f");
    snap.remove("/d/old");
    snap.set("/d".to_string(), dir(&["new"]));
    snap.set("/d/new".to_string(), dir(&["f"]));
    snap.set("/d/new/f".to_string(), FsNode::File);
    fs.process(
        WatchEvent::Rename("/d/old".to_string(), "/d/new".to_string()),
        &snap,
        &mut events,
    )
    .unwrap();
    assert!(fs.lookup("/d/old").is_none());
    assert_eq!(fs.lookup("/d/new"), Some(kd));
    assert!(matches!(
        fs.entry(kd).unwrap(),
        fs_cache::entry::Entry::Dir { .. }
    ));
    // the directory's file keeps its recorded path
    assert!(fs.lookup("/d/old/f").is_some());
}

/// A rename whose destination is already tracked discards the
/// destination's old entry, announcing its deletion, before the moved
/// entry takes the path over.
#[test]
fn rename_over_tracked_destination() {
    let mut snap = FsSnapshot::new();
    snap.set("/d".to_string(), dir(&["a", "b"]));
    snap.set("/d/a".to_string(), FsNode::File);
    snap.set("/d/b".to_string(), FsNode::File);
    let mut fs = FileSystem::new(vec!["/d".to_string()], match_all_rules(), &snap);
    let _ = fs.take_initial_events();
    let ka = fs.lookup("/d/a").unwrap();
    let kb = fs.lookup("/d/b").unwrap();

    let mut events = Vec::new();
    snap.remove("/d/a");
    snap.set("/d".to_string(), dir(&["b"]));
    fs.process(
        WatchEvent::Rename("/d/a".to_string(), "/d/b".to_string()),
        &snap,
        &mut events,
    )
    .unwrap();
    assert!(events.contains(&Event::Delete(kb)));
    assert_eq!(fs.lookup("/d/b"), Some(ka));
    assert!(fs.lookup("/d/a").is_none());
}

/// Every `Delete` in a whole event history refers to a key the consumer
/// was told about exactly once, by `Initialize` or `New`, before the
/// `Delete` arrived.
#[test]
fn deletes_follow_exactly_one_announcement() {
    let mut snap = FsSnapshot::new();
    snap.set("/d".to_string(), dir(&["a", "sub"]));
    snap.set("/d/a".to_string(), FsNode::File);
    snap.set("/d/sub".to_string(), dir(&["b"]));
    snap.set("/d/sub/b".to_string(), FsNode::File);
    let mut fs = FileSystem::new(vec!["/d".to_string()], match_all_rules(), &snap);
    let mut history = fs.take_initial_events();

    snap.set("/d".to_string(), dir(&["a", "sub", "c"]));
    snap.set("/d/c".to_string(), FsNode::File);
    fs.process(WatchEvent::Create("/d/c".to_string()), &snap, &mut history)
        .unwrap();

    snap.remove("/d/sub/b");
    snap.remove("/d/sub");
    snap.set("/d".to_string(), dir(&["a", "c"]));
    fs.process(WatchEvent::Remove("/d/sub".to_string()), &snap, &mut history)
        .unwrap();
    snap.remove("/d/a");
    snap.set("/d".to_string(), dir(&["c"]));
    fs.process(WatchEvent::Remove("/d/a".to_string()), &snap, &mut history)
        .unwrap();

    let mut saw_delete = false;
    for (i, e) in history.iter().enumerate() {
        if let Event::Delete(k) = e {
            saw_delete = true;
            let announcements = history[..i]
                .iter()
                .filter(|p| matches!(p, Event::Initialize(q) | Event::New(q) if q == k))
                .count();
            assert_eq!(announcements, 1, "exactly one announcement before delete");
        }
    }
    assert!(saw_delete);
}

/// The kernel watch set follows tracking: watch actions are issued for
/// inserted paths and unwatch actions when the last entry under a path
/// goes.
#[test]
fn watch_actions_follow_tracking() {
    let mut snap = FsSnapshot::new();
    snap.set("/d".to_string(), dir(&["a"]));
    snap.set("/d/a".to_string(), FsNode::File);
    let mut fs = FileSystem::new(vec!["/d".to_string()], match_all_rules(), &snap);
    let _ = fs.take_initial_events();
    let actions = fs.drain_watch_actions();
    assert!(actions.contains(&WatchAction::Watch("/d".to_string())));
    assert!(actions.contains(&WatchAction::Watch("/d/a".to_string())));

    let mut events = Vec::new();
    snap.remove("/d/a");
    snap.set("/d".to_string(), dir(&[]));
    fs.process(WatchEvent::Remove("/d/a".to_string()), &snap, &mut events)
        .unwrap();
    let actions2 = fs.drain_watch_actions();
    assert!(actions2.contains(&WatchAction::Unwatch("/d/a".to_string())));
    assert!(
        fs.drain_watch_actions().is_empty(),
        "draining clears the action log"
    );
}
