//! The watch adapter's interface: raw events coming in, and the set of
//! kernel watches the cache asks for.
//!
//! The OS side (inotify and its debouncing) lives outside this crate; here
//! the adapter is modelled by the set of paths it must hold a watch for and
//! by the ordered list of watch and unwatch calls the cache has issued and
//! the embedding program still has to replay against the OS watcher.

use crate::assoc::AssocMap;
use vstd::prelude::*;

verus! {

/// A raw, debounced filesystem notification.
#[derive(Debug, Clone, PartialEq, Eq)]
pub enum Event {
    /// Notice of a pending removal of the path.
    Remove(String),
    /// A file or directory appeared at the path.
    Create(String),
    /// The file at the path was written to.
    Write(String),
    /// A rename within the watched set: source, then destination.
    Rename(String, String),
    /// The adapter lost state; the mirrored tree must be refreshed.
    Rescan,
    /// A watching error, possibly tied to a path.
    Error(WatchError, Option<String>),
}

/// A failure reported by or about the OS watcher.
#[derive(Debug, Clone, PartialEq, Eq)]
pub enum WatchError {
    /// Generic error, used where a platform error has no closer mapping.
    Generic(String),
    /// An I/O error, carried as its message.
    Io(String),
    /// The provided path does not exist.
    PathNotFound,
    /// Attempted to remove a watch that does not exist.
    WatchNotFound,
    /// The kernel event queue overflowed and notifications were lost.
    Overflow,
}

/// One kernel-watch call the embedding program must replay.
#[derive(Debug, Clone, PartialEq, Eq)]
pub enum WatchAction {
    /// Add a non-recursive watch for the path.
    Watch(String),
    /// Drop the watch for the path.
    Unwatch(String),
}

/// The cache's view of the watch adapter: which paths hold a kernel watch,
/// and the calls issued but not yet replayed.
pub struct Watcher {
    watched: AssocMap<()>,
    pending: Vec<WatchAction>,
}

impl Watcher {
    /// The set of paths the adapter holds a watch for.
    pub closed spec fn watched_set(&self) -> Set<Seq<char>> {
        self.watched@.dom()
    }

    /// The watch calls issued and not yet replayed, in order.
    pub closed spec fn pending_spec(&self) -> Seq<WatchAction> {
        self.pending@
    }

    /// Internal consistency.
    pub closed spec fn inv(&self) -> bool {
        self.watched.inv()
    }

    /// Constructs an adapter mirror holding no watches.
    pub fn new() -> (r: Self)
        ensures
            r.inv(),
            r.watched_set() == Set::<Seq<char>>::empty(),
            r.pending_spec() == Seq::<WatchAction>::empty(),
    {
        let r = Watcher { watched: AssocMap::new(), pending: Vec::new() };
        proof {
            assert(r.watched_set() =~= Set::<Seq<char>>::empty());
            assert(r.pending_spec() =~= Seq::<WatchAction>::empty());
        }
        r
    }

    /// Asks for a non-recursive kernel watch on the path.
    pub fn watch(&mut self, path: &String)
        requires
            old(self).inv(),
        ensures
            final(self).inv(),
            final(self).watched_set() == old(self).watched_set().insert(path@),
            final(self).pending_spec() == old(self).pending_spec().push(
                WatchAction::Watch(*path),
            ),
    {
        self.watched.set(path.clone(), ());
        self.pending.push(WatchAction::Watch(path.clone()));
        proof {
            assert(final(self).watched_set() =~= old(self).watched_set().insert(path@));
        }
    }

    /// Drops the kernel watch for the path; asking for a path that holds no
    /// watch changes nothing.
    pub fn unwatch(&mut self, path: &String)
        requires
            old(self).inv(),
        ensures
            final(self).inv(),
            final(self).watched_set() == old(self).watched_set().remove(path@),
            old(self).watched_set().contains(path@) ==> final(self).pending_spec() == old(
                self,
            ).pending_spec().push(WatchAction::Unwatch(*path)),
            !old(self).watched_set().contains(path@) ==> *final(self) == *old(self),
    {
        match self.watched.remove(path.as_str()) {
            Some(_) => {
                self.pending.push(WatchAction::Unwatch(path.clone()));
            },
            None => {
            },
        }
        proof {
            assert(final(self).watched_set() =~= old(self).watched_set().remove(path@));
        }
    }

    /// Moves the watch for `from` to `to` without a kernel call: the kernel
    /// watch is bound to the inode and follows a rename on its own. When
    /// other entries remain tracked under `from`, its watch stays.
    pub fn follow_rename(&mut self, from: &String, to: &String, drop_from: bool)
        requires
            old(self).inv(),
        ensures
            final(self).inv(),
            drop_from ==> final(self).watched_set() == old(self).watched_set().remove(
                from@,
            ).insert(to@),
            !drop_from ==> final(self).watched_set() == old(self).watched_set().insert(to@),
            final(self).pending_spec() == old(self).pending_spec(),
    {
        if drop_from {
            self.watched.remove(from.as_str());
        }
        self.watched.set(to.clone(), ());
        proof {
            if drop_from {
                assert(final(self).watched_set() =~= old(self).watched_set().remove(
                    from@,
                ).insert(to@));
            } else {
                assert(final(self).watched_set() =~= old(self).watched_set().insert(to@));
            }
        }
    }

    /// Hands the issued watch calls out for replay against the OS watcher.
    pub fn drain_pending(&mut self) -> (r: Vec<WatchAction>)
        requires
            old(self).inv(),
        ensures
            final(self).inv(),
            r@ == old(self).pending_spec(),
            final(self).pending_spec() == Seq::<WatchAction>::empty(),
            final(self).watched_set() == old(self).watched_set(),
    {
        let mut out: Vec<WatchAction> = Vec::new();
        core::mem::swap(&mut out, &mut self.pending);
        proof {
            assert(final(self).pending_spec() =~= Seq::<WatchAction>::empty());
        }
        out
    }
}

} // verus!
