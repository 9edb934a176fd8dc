//! The cache core: a mirrored tree of entries, its path indices, and the
//! reconciler that turns raw filesystem notifications into semantic events.

use crate::assoc::AssocMap;
use crate::entry::Entry;
use crate::event::Event;
use crate::paths::{
    component_valid, is_root, join, join_of, leaf, leaf_of, parent, parent_of, path_valid,
    root_seq, str_eq,
};
use crate::rule::{GlobRule, Matcher, Rule, RuleError, Rules};
use crate::snapshot::{resolve_spec, FsNode, FsSnapshot, MAX_LINK_FOLLOW};
use crate::store::{Arena, EntryKey};
use crate::watcher::{Event as WatchEvent, WatchAction, WatchError, Watcher};
use vstd::prelude::*;

verus! {

/// A failure while reconciling the mirrored tree.
#[derive(Debug)]
pub enum FsError {
    /// Failed to add or remove a kernel watch for the path.
    Watch(String, WatchError),
    /// Got an event for a path no watch descriptor is tracked under.
    WatchEvent(String),
    /// The kernel event queue overflowed and events were presumably lost.
    WatchOverflow,
    /// Attempted to attach a child where the parent already has one by that
    /// name.
    Existing,
    /// Failed to find an entry.
    Lookup,
    /// Failed to find a parent entry.
    ParentLookup,
    /// The parent should be a directory.
    ParentNotValid,
    /// The path was lost between classification and action.
    PathNotValid(String),
    /// Listing a directory's contents failed; message, then path.
    DirectoryListNotValid(String, String),
    /// Errors collected while inserting recursively.
    InsertRecursively(Vec<FsError>),
    /// Failed to open a file for tailing.
    File(String),
}

/// The filesystem cache: the entry store, its two path indices, the rule
/// sets, the buffered bootstrap events, and the watch-adapter mirror.
pub struct FileSystem {
    entries: Arena<Entry>,
    symlinks: AssocMap<Vec<EntryKey>>,
    watch_descriptors: AssocMap<Vec<EntryKey>>,
    master_rules: Rules,
    initial_dirs: Vec<String>,
    initial_dir_rules: Rules,
    initial_events: Vec<Event>,
    watcher: Watcher,
}

impl FileSystem {
    /// The entry store's key-to-entry mapping.
    pub closed spec fn entries_map(&self) -> Map<EntryKey, Entry> {
        self.entries@
    }

    /// The number of live entries.
    pub closed spec fn entries_len(&self) -> nat {
        self.entries.spec_len()
    }

    /// The watch-descriptor index: absolute path to the keys tracked under
    /// it.
    pub closed spec fn wd_index(&self) -> Map<Seq<char>, Vec<EntryKey>> {
        self.watch_descriptors@
    }

    /// The symlink index: absolute target path to the symlink entries
    /// pointing at it.
    pub closed spec fn symlink_index(&self) -> Map<Seq<char>, Vec<EntryKey>> {
        self.symlinks@
    }

    /// The set of paths the watch adapter holds a kernel watch for.
    pub closed spec fn watched_paths(&self) -> Set<Seq<char>> {
        self.watcher.watched_set()
    }

    /// The kernel watch calls issued and not yet handed out for replay.
    pub closed spec fn pending_actions(&self) -> Seq<WatchAction> {
        self.watcher.pending_spec()
    }

    /// The buffered bootstrap events.
    pub closed spec fn initial_events_spec(&self) -> Seq<Event> {
        self.initial_events@
    }

    /// The configured roots.
    pub closed spec fn initial_dirs_spec(&self) -> Seq<String> {
        self.initial_dirs@
    }

    /// The master rule set.
    pub closed spec fn rules_spec(&self) -> Rules {
        self.master_rules
    }

    /// The derived initial-dir rule set.
    pub closed spec fn initial_dir_rules_spec(&self) -> Rules {
        self.initial_dir_rules
    }

    /// The watch-descriptor index is sound: every key in every sequence
    /// resolves to a live entry whose watch identifier is the indexing path.
    pub open spec fn wd_index_sound(&self) -> bool {
        forall|p: Seq<char>| #[trigger] self.wd_index().contains_key(p) ==> {
            let l = self.wd_index()[p]@;
            l.len() > 0 && forall|i: int| 0 <= i < l.len() ==> self.entries_map().contains_key(
                #[trigger] l[i],
            ) && self.entries_map()[l[i]].wd_spec() == p
        }
    }

    /// The watch-descriptor index is complete: every live entry's watch
    /// identifier is indexed, with the entry's key in its sequence.
    pub open spec fn wd_index_complete(&self) -> bool {
        forall|k: EntryKey| #[trigger] self.entries_map().contains_key(k) ==> {
            let p = self.entries_map()[k].wd_spec();
            self.wd_index().contains_key(p) && self.wd_index()[p]@.contains(k)
        }
    }

    /// Children bindings agree with the bound entries: a live child bound
    /// under a name has that name and its parent set to the binding
    /// directory.
    pub open spec fn children_sound(&self) -> bool {
        forall|k: EntryKey, n: Seq<char>|
            #![trigger self.entries_map()[k].children_spec().contains_key(n)]
            self.entries_map().contains_key(k) && self.entries_map()[k].children_spec().contains_key(
                n,
            ) ==> {
                let c = self.entries_map()[k].children_spec()[n];
                self.entries_map().contains_key(c) ==> self.entries_map()[c].parent_spec()
                    == Option::Some(k) && self.entries_map()[c].name_spec() == n
            }
    }

    /// Every live symlink entry is indexed under its target.
    pub open spec fn symlink_index_complete(&self) -> bool {
        forall|k: EntryKey| #[trigger] self.entries_map().contains_key(k) && self.entries_map()[k]
            is Symlink ==> {
            let t = self.entries_map()[k].link_spec();
            self.symlink_index().contains_key(t) && self.symlink_index()[t]@.contains(k)
        }
    }

    /// The symlink index is sound: every indexed key is a live symlink entry
    /// with the indexing path as its target.
    pub open spec fn symlink_index_sound(&self) -> bool {
        forall|t: Seq<char>| #[trigger] self.symlink_index().contains_key(t) ==> {
            let l = self.symlink_index()[t]@;
            l.len() > 0 && forall|i: int| 0 <= i < l.len() ==> self.entries_map().contains_key(
                #[trigger] l[i],
            ) && self.entries_map()[l[i]] is Symlink && self.entries_map()[l[i]].link_spec() == t
        }
    }

    /// The watch adapter holds a kernel watch exactly for the paths in the
    /// watch-descriptor index.
    pub open spec fn watches_match(&self) -> bool {
        self.watched_paths() == self.wd_index().dom()
    }

    /// Every live entry is internally consistent and carries a valid path.
    pub open spec fn entries_ok(&self) -> bool {
        forall|k: EntryKey| #[trigger] self.entries_map().contains_key(k) ==> {
            let e = self.entries_map()[k];
            e.inv() && path_valid(e.wd_spec()) && (e is Symlink ==> path_valid(e.link_spec()))
        }
    }

    /// Whether the store ever handed this key out.
    pub closed spec fn key_known_spec(&self, k: EntryKey) -> bool {
        self.entries.key_known(k)
    }

    /// Every key bound in some children map was handed out by the store, so
    /// a fresh key never collides with a stale binding.
    pub closed spec fn children_keys_known(&self) -> bool {
        forall|k: EntryKey, n: Seq<char>|
            #![trigger self.entries_map()[k].children_spec().contains_key(n)]
            self.entries_map().contains_key(k) && self.entries_map()[k].children_spec().contains_key(
                n,
            ) ==> self.key_known_spec(self.entries_map()[k].children_spec()[n])
    }

    /// The configured roots are valid absolute paths.
    pub open spec fn roots_ok(&self) -> bool {
        forall|i: int| 0 <= i < self.initial_dirs_spec().len() ==> path_valid(
            (#[trigger] self.initial_dirs_spec()[i])@,
        )
    }

    /// The cache's well-formedness: representation invariants of the parts
    /// and the index consistency laws.
    pub closed spec fn well_formed(&self) -> bool {
        &&& self.roots_ok()
        &&& self.entries.inv()
        &&& self.watch_descriptors.inv()
        &&& self.symlinks.inv()
        &&& self.watcher.inv()
        &&& self.entries_ok()
        &&& self.wd_index_sound()
        &&& self.wd_index_complete()
        &&& self.children_sound()
        &&& self.children_keys_known()
        &&& self.symlink_index_complete()
        &&& self.symlink_index_sound()
        &&& self.watches_match()
    }

    /// Returns the key that represents the supplied path: the first entry
    /// tracked under it, or `None` when the path is not represented.
    pub fn lookup(&self, path: &str) -> (r: Option<EntryKey>)
        requires
            self.well_formed(),
        ensures
            match r {
                Option::Some(k) => self.wd_index().contains_key(path@) && k == self.wd_index()[path@]@[0] && self.entries_map().contains_key(k),
                Option::None => !self.wd_index().contains_key(path@),
            },
    {
        match self.watch_descriptors.get(path) {
            Option::Some(l) => {
                let k = l[0];
                proof {
                    assert(self.wd_index()[path@]@.len() > 0);
                }
                Option::Some(k)
            },
            Option::None => Option::None,
        }
    }

    /// A read borrow of the entry a key addresses.
    pub fn entry(&self, k: EntryKey) -> (r: Option<&Entry>)
        ensures
            match r {
                Option::Some(e) => self.entries_map().contains_key(k) && *e == self.entries_map()[k],
                Option::None => !self.entries_map().contains_key(k),
            },
    {
        self.entries.get(k)
    }

    /// The first key tracked under the watch descriptor, or `WatchEvent`
    /// when the path is untracked.
    fn get_first_entry(&self, wd: &str) -> (r: Result<EntryKey, FsError>)
        requires
            self.well_formed(),
        ensures
            match r {
                Result::Ok(k) => self.wd_index().contains_key(wd@) && k == self.wd_index()[wd@]@[0]
                    && self.entries_map().contains_key(k),
                Result::Err(e) => !self.wd_index().contains_key(wd@) && (e matches
                    FsError::WatchEvent(p) && p@ == wd@),
            },
    {
        match self.lookup(wd) {
            Option::Some(k) => Result::Ok(k),
            Option::None => Result::Err(FsError::WatchEvent(wd.to_owned())),
        }
    }

    /// Whether some live symlink entry's local rule scope admits the path,
    /// the master inclusions allowing it.
    pub open spec fn symlink_grants_spec(&self, path: Seq<char>) -> bool {
        exists|k: EntryKey| key_grants(*self, k, path)
    }

    /// Whether a path is admitted by the configured roots: inside them, and
    /// either passing the master rules or naming a directory.
    pub open spec fn initial_dir_target_spec(&self, path: Seq<char>, snap: Map<Seq<char>, FsNode>) -> bool {
        &&& self.initial_dir_rules_spec().passes_spec(path)
        &&& (self.rules_spec().passes_spec(path) || (resolve_spec(snap, path, MAX_LINK_FOLLOW as nat)
            matches Option::Some(n) && n is Dir))
    }

    /// Whether a path passes for tracking: admitted by the roots or granted
    /// by a symlink.
    pub open spec fn passes_spec(&self, path: Seq<char>, snap: Map<Seq<char>, FsNode>) -> bool {
        self.initial_dir_target_spec(path, snap) || self.symlink_grants_spec(path)
    }

    /// Determines whether the path is within the initial dirs and either
    /// passes the master rules or names a directory.
    fn is_initial_dir_target(&self, path: &str, snap: &FsSnapshot) -> (r: bool)
        requires
            self.well_formed(),
            snap.inv(),
        ensures
            r == self.initial_dir_target_spec(path@, snap@),
    {
        if !self.initial_dir_rules.passes(path).is_ok() {
            return false;
        }
        if !self.master_rules.passes(path).is_ok() {
            return match snap.resolve(path, MAX_LINK_FOLLOW) {
                Option::Some(node) => node.is_dir_node(),
                Option::None => false,
            };
        }
        true
    }

    /// Whether some tracked symlink's local rules admit the path.
    fn is_symlink_target(&self, path: &str) -> (r: bool)
        requires
            self.well_formed(),
        ensures
            r == self.symlink_grants_spec(path@),
    {
        let n = self.symlinks.len();
        let mut i: usize = 0;
        while i < n
            invariant
                self.well_formed(),
                n == self.symlinks.pairs_spec().len(),
                0 <= i <= n,
                forall|a: int, b: int| 0 <= a < i && 0 <= b
                    < self.symlinks.pairs_spec()[a].1@.len()
                    ==> !key_grants(*self, #[trigger] self.symlinks.pairs_spec()[a].1@[b], path@),
            decreases n - i,
        {
            let list = self.symlinks.val_at(i);
            let m = list.len();
            let mut j: usize = 0;
            while j < m
                invariant
                    self.well_formed(),
                    n == self.symlinks.pairs_spec().len(),
                    i < n,
                    *list == self.symlinks.pairs_spec()[i as int].1,
                    m == list@.len(),
                    0 <= j <= m,
                    forall|a: int, b: int| 0 <= a < i && 0 <= b
                        < self.symlinks.pairs_spec()[a].1@.len()
                        ==> !key_grants(*self, #[trigger] self.symlinks.pairs_spec()[a].1@[b], path@),
                    forall|b: int| 0 <= b < j ==> !key_grants(*self, #[trigger] list@[b], path@),
                decreases m - j,
            {
                let k = list[j];
                match self.entries.get(k) {
                    Option::Some(e) => match e {
                        Entry::Symlink { rules, .. } => {
                            if rules.passes(path).is_ok() && self.master_rules.included(
                                path,
                            ).is_ok() {
                                proof {
                                    assert(key_grants(*self, k, path@));
                                }
                                return true;
                            }
                        },
                        _ => {
                            // The symlink index holds only symlink entries.
                        },
                    },
                    Option::None => {
                        // The index never holds a dead key.
                    },
                }
                j += 1;
            }
            i += 1;
        }
        proof {
            if self.symlink_grants_spec(path@) {
                let k = choose|k: EntryKey| key_grants(*self, k, path@);
                assert(self.entries_map().contains_key(k));
                let t = self.entries_map()[k].link_spec();
                assert(self.symlink_index().contains_key(t));
                let l = self.symlink_index()[t]@;
                let b = choose|b: int| 0 <= b < l.len() && l[b] == k;
                assert(exists|a: int| 0 <= a < self.symlinks.pairs_spec().len() && (
                #[trigger] self.symlinks.pairs_spec()[a]).0@ == t) by {
                    crate::assoc::lemma_map_of_contains(self.symlinks.pairs_spec(), t);
                }
                let a = choose|a: int| 0 <= a < self.symlinks.pairs_spec().len() && (
                #[trigger] self.symlinks.pairs_spec()[a]).0@ == t;
                assert(self.symlinks.pairs_spec()[a].1 == self.symlink_index()[t]) by {
                    crate::assoc::lemma_map_of_get(self.symlinks.pairs_spec(), a);
                }
                assert(key_grants(*self, l[b], path@));
                assert(false);
            }
        }
        false
    }

    /// Checks whether a path passes for tracking.
    fn passes(&self, path: &str, snap: &FsSnapshot) -> (r: bool)
        requires
            self.well_formed(),
            snap.inv(),
        ensures
            r == self.passes_spec(path@, snap@),
    {
        self.is_initial_dir_target(path, snap) || self.is_symlink_target(path)
    }

    /// Whether a key's entry still passes under its stored path.
    fn entry_path_passes(&self, entry_key: EntryKey, snap: &FsSnapshot) -> (r: bool)
        requires
            self.well_formed(),
            snap.inv(),
        ensures
            r == (self.entries_map().contains_key(entry_key) && self.passes_spec(
                self.entries_map()[entry_key].wd_spec(),
                snap@,
            )),
    {
        match self.entries.get(entry_key) {
            Option::Some(e) => {
                let path = e.path().clone();
                self.passes(path.as_str(), snap)
            },
            Option::None => false,
        }
    }

    /// Emits `Write` for every key tracked under the watch descriptor;
    /// surfaces `WatchEvent` when the path is untracked.
    fn process_modify(&mut self, watch_descriptor: &str, events: &mut Vec<Event>) -> (r: Result<
        (),
        FsError,
    >)
        requires
            old(self).well_formed(),
        ensures
            *final(self) == *old(self),
            match r {
                Result::Ok(()) => old(self).wd_index().contains_key(watch_descriptor@) && final(events)@ == old(events)@ + Seq::new(
                    old(self).wd_index()[watch_descriptor@]@.len(),
                    |i: int| Event::Write(old(self).wd_index()[watch_descriptor@]@[i]),
                ),
                Result::Err(e) => !old(self).wd_index().contains_key(watch_descriptor@) && (e
                    matches FsError::WatchEvent(p) && p@ == watch_descriptor@) && final(events)@
                    == old(events)@,
            },
    {
        match self.watch_descriptors.get(watch_descriptor) {
            Option::Some(list) => {
                let m = list.len();
                let ghost l = list@;
                let mut j: usize = 0;
                while j < m
                    invariant
                        m == l.len(),
                        0 <= j <= m,
                        list@ == l,
                        events@ == old(events)@ + Seq::new(j as nat, |i: int| Event::Write(l[i])),
                    decreases m - j,
                {
                    let k = list[j];
                    events.push(Event::Write(k));
                    proof {
                        assert(events@ =~= old(events)@ + Seq::new(
                            (j + 1) as nat,
                            |i: int| Event::Write(l[i]),
                        ));
                    }
                    j += 1;
                }
                proof {
                    assert(events@ =~= old(events)@ + Seq::new(
                        l.len(),
                        |i: int| Event::Write(l[i]),
                    ));
                }
                Result::Ok(())
            },
            Option::None => Result::Err(FsError::WatchEvent(watch_descriptor.to_owned())),
        }
    }

    /// Places a fresh entry in the store, publishes its key in the
    /// watch-descriptor index (and, for a symlink, in the symlink index),
    /// and asks for a kernel watch on its path.
    fn register_entry(&mut self, entry: Entry) -> (k: EntryKey)
        requires
            old(self).well_formed(),
            old(self).entries_len() < usize::MAX,
            entry.inv(),
            path_valid(entry.wd_spec()),
            entry is Symlink ==> path_valid(entry.link_spec()),
            entry.children_spec() == Map::<Seq<char>, EntryKey>::empty(),
        ensures
            final(self).well_formed(),
            same_config(*old(self), *final(self)),
            preserves_entries(*old(self), *final(self)),
            !old(self).entries_map().contains_key(k),
            !old(self).key_known_spec(k),
            final(self).entries_map() == old(self).entries_map().insert(k, entry),
            final(self).entries_len() == old(self).entries_len() + 1,
            final(self).wd_index().contains_key(entry.wd_spec()),
            final(self).wd_index()[entry.wd_spec()]@ == (if old(self).wd_index().contains_key(
                entry.wd_spec(),
            ) {
                old(self).wd_index()[entry.wd_spec()]@.push(k)
            } else {
                seq![k]
            }),
            forall|q: Seq<char>| q != entry.wd_spec() ==> (old(self).wd_index().contains_key(q)
                == final(self).wd_index().contains_key(q)) && (old(self).wd_index().contains_key(q)
                ==> final(self).wd_index()[q] == old(self).wd_index()[q]),
            !(entry is Symlink) ==> final(self).symlink_index() == old(self).symlink_index(),
            bindings_tracked(*old(self), *final(self)),
    {
        let path: String = entry.path().clone();
        let link: Option<String> = match &entry {
            Entry::Symlink { link, .. } => Option::Some(link.clone()),
            _ => Option::None,
        };
        let k = self.entries.insert(entry);
        let mut list: Vec<EntryKey> = match self.watch_descriptors.remove(path.as_str()) {
            Option::Some(l) => l,
            Option::None => Vec::new(),
        };
        list.push(k);
        self.watch_descriptors.set(path.clone(), list);
        self.watcher.watch(&path);
        match link {
            Option::Some(target) => {
                let mut tl: Vec<EntryKey> = match self.symlinks.remove(target.as_str()) {
                    Option::Some(l) => l,
                    Option::None => Vec::new(),
                };
                tl.push(k);
                self.symlinks.set(target.clone(), tl);
            },
            Option::None => {},
        }
        proof {
            let pre = *old(self);
            let post = *self;
            let w = entry.wd_spec();
            assert(post.wd_index() =~= pre.wd_index().insert(w, post.wd_index()[w]));
            assert(post.wd_index().dom() =~= pre.wd_index().dom().insert(w));
            if entry is Symlink {
                let t = entry.link_spec();
                assert(post.symlink_index() =~= pre.symlink_index().insert(
                    t,
                    post.symlink_index()[t],
                ));
                assert(post.symlink_index().dom() =~= pre.symlink_index().dom().insert(t));
            }
            assert(post.roots_ok()) by {
                assert(post.initial_dirs_spec() == pre.initial_dirs_spec());
            }
            assert(post.entries_ok()) by {
                assert forall|q: EntryKey| #[trigger] post.entries_map().contains_key(q) implies ({
                    let e = post.entries_map()[q];
                    e.inv() && path_valid(e.wd_spec()) && (e is Symlink ==> path_valid(
                        e.link_spec(),
                    ))
                }) by {
                    if q != k {
                        assert(pre.entries_map().contains_key(q));
                        assert(post.entries_map()[q] == pre.entries_map()[q]);
                    }
                }
            }
            assert(post.wd_index_sound()) by {
                assert forall|p: Seq<char>| #[trigger] post.wd_index().contains_key(p) implies ({
                    let l = post.wd_index()[p]@;
                    l.len() > 0 && forall|i: int| 0 <= i < l.len()
                        ==> post.entries_map().contains_key(#[trigger] l[i])
                        && post.entries_map()[l[i]].wd_spec() == p
                }) by {
                    let l = post.wd_index()[p]@;
                    if p == w {
                        assert forall|i: int| 0 <= i < l.len() implies
                            post.entries_map().contains_key(#[trigger] l[i])
                            && post.entries_map()[l[i]].wd_spec() == p by {
                            if i < l.len() - 1 {
                                let ol = pre.wd_index()[p]@;
                                assert(pre.wd_index().contains_key(p));
                                assert(l[i] == ol[i]);
                                assert(pre.entries_map().contains_key(ol[i]));
                                assert(ol[i] != k);
                            } else {
                                assert(l[i] == k);
                            }
                        }
                    } else {
                        assert(pre.wd_index().contains_key(p));
                        assert(l == pre.wd_index()[p]@);
                        assert forall|i: int| 0 <= i < l.len() implies
                            post.entries_map().contains_key(#[trigger] l[i])
                            && post.entries_map()[l[i]].wd_spec() == p by {
                            assert(pre.entries_map().contains_key(l[i]));
                            assert(l[i] != k);
                        }
                    }
                }
            }
            assert(post.wd_index_complete()) by {
                assert forall|q: EntryKey| #[trigger] post.entries_map().contains_key(q) implies ({
                    let p = post.entries_map()[q].wd_spec();
                    post.wd_index().contains_key(p) && post.wd_index()[p]@.contains(q)
                }) by {
                    if q == k {
                        let l = post.wd_index()[w]@;
                        assert(l[l.len() - 1] == k);
                    } else {
                        assert(pre.entries_map().contains_key(q));
                        let p = pre.entries_map()[q].wd_spec();
                        assert(pre.wd_index()[p]@.contains(q));
                        if p == w {
                            lemma_push_contains(pre.wd_index()[p]@, k);
                        } else {
                            assert(post.wd_index()[p] == pre.wd_index()[p]);
                        }
                    }
                }
            }
            assert(post.children_sound() && post.children_keys_known()) by {
                assert forall|d: EntryKey, n: Seq<char>|
                    #![trigger post.entries_map()[d].children_spec().contains_key(n)]
                    post.entries_map().contains_key(d)
                        && post.entries_map()[d].children_spec().contains_key(n) implies ({
                    let c = post.entries_map()[d].children_spec()[n];
                    post.key_known_spec(c) && (post.entries_map().contains_key(c)
                        ==> post.entries_map()[c].parent_spec() == Option::Some(d)
                        && post.entries_map()[c].name_spec() == n)
                }) by {
                    if d == k {
                        assert(entry.children_spec().contains_key(n));
                        assert(false);
                    } else {
                        assert(pre.entries_map().contains_key(d));
                        assert(post.entries_map()[d] == pre.entries_map()[d]);
                        assert(pre.entries_map()[d].children_spec().contains_key(n));
                        let c = pre.entries_map()[d].children_spec()[n];
                        assert(pre.key_known_spec(c));
                        assert(c != k);
                        if post.entries_map().contains_key(c) {
                            assert(pre.entries_map().contains_key(c));
                            assert(post.entries_map()[c] == pre.entries_map()[c]);
                        }
                    }
                }
            }
            assert(post.symlink_index_complete()) by {
                assert forall|q: EntryKey| #[trigger] post.entries_map().contains_key(q)
                    && post.entries_map()[q] is Symlink implies ({
                    let t = post.entries_map()[q].link_spec();
                    post.symlink_index().contains_key(t) && post.symlink_index()[t]@.contains(q)
                }) by {
                    if q == k {
                        let t = entry.link_spec();
                        let l = post.symlink_index()[t]@;
                        assert(l[l.len() - 1] == k);
                    } else {
                        assert(pre.entries_map().contains_key(q));
                        assert(post.entries_map()[q] == pre.entries_map()[q]);
                        let t = pre.entries_map()[q].link_spec();
                        assert(pre.symlink_index()[t]@.contains(q));
                        if entry is Symlink && t == entry.link_spec() {
                            lemma_push_contains(pre.symlink_index()[t]@, k);
                        } else {
                            assert(post.symlink_index()[t] == pre.symlink_index()[t]);
                        }
                    }
                }
            }
            assert(post.symlink_index_sound()) by {
                assert forall|t: Seq<char>| #[trigger] post.symlink_index().contains_key(t)
                    implies ({
                    let l = post.symlink_index()[t]@;
                    l.len() > 0 && forall|i: int| 0 <= i < l.len()
                        ==> post.entries_map().contains_key(#[trigger] l[i])
                        && post.entries_map()[l[i]] is Symlink && post.entries_map()[
                        l[i]
                    ].link_spec() == t
                }) by {
                    let l = post.symlink_index()[t]@;
                    if entry is Symlink && t == entry.link_spec() {
                        assert forall|i: int| 0 <= i < l.len() implies
                            post.entries_map().contains_key(#[trigger] l[i])
                            && post.entries_map()[l[i]] is Symlink && post.entries_map()[
                            l[i]
                        ].link_spec() == t by {
                            if i < l.len() - 1 {
                                let ol = pre.symlink_index()[t]@;
                                assert(pre.symlink_index().contains_key(t));
                                assert(l[i] == ol[i]);
                                assert(pre.entries_map().contains_key(ol[i]));
                                assert(ol[i] != k);
                            } else {
                                assert(l[i] == k);
                            }
                        }
                    } else {
                        assert(pre.symlink_index().contains_key(t));
                        assert(l == pre.symlink_index()[t]@);
                        assert forall|i: int| 0 <= i < l.len() implies
                            post.entries_map().contains_key(#[trigger] l[i])
                            && post.entries_map()[l[i]] is Symlink && post.entries_map()[
                            l[i]
                        ].link_spec() == t by {
                            assert(pre.entries_map().contains_key(l[i]));
                            assert(l[i] != k);
                        }
                    }
                }
            }
            assert(post.watches_match()) by {
                assert(post.watched_paths() =~= post.wd_index().dom());
            }
            assert(preserves_entries(pre, post)) by {
                assert forall|q: Seq<char>| #[trigger] pre.wd_index().contains_key(q) implies
                    post.wd_index().contains_key(q) && forall|x: EntryKey|
                        pre.wd_index()[q]@.contains(x) ==> #[trigger] post.wd_index()[q]@.contains(x) by {
                    if q == w {
                        assert forall|x: EntryKey| pre.wd_index()[q]@.contains(x) implies
                            #[trigger] post.wd_index()[q]@.contains(x) by {
                            let i = choose|i: int| 0 <= i < pre.wd_index()[q]@.len()
                                && pre.wd_index()[q]@[i] == x;
                            assert(post.wd_index()[q]@[i] == x);
                        }
                    }
                }
            }
        }
        k
    }

    /// Places the entry in the store and the indices, looks its parent up
    /// by path, and attaches it as a child; refuses the attach when the
    /// parent is not a directory or already has a child by that name.
    fn register_as_child(&mut self, new_entry: Entry) -> (r: Result<EntryKey, FsError>)
        requires
            old(self).well_formed(),
            old(self).entries_len() < usize::MAX,
            new_entry.inv(),
            path_valid(new_entry.wd_spec()),
            new_entry.wd_spec() != root_seq(),
            new_entry.name_spec() == leaf_of(new_entry.wd_spec()),
            new_entry is Symlink ==> path_valid(new_entry.link_spec()),
            new_entry.children_spec() == Map::<Seq<char>, EntryKey>::empty(),
        ensures
            final(self).well_formed(),
            same_config(*old(self), *final(self)),
            match r {
                Result::Ok(k) => {
                    &&& attach_refusal(*old(self), new_entry.wd_spec()) is None
                    &&& !old(self).entries_map().contains_key(k)
                    &&& !old(self).key_known_spec(k)
                    &&& preserves_entries(*old(self), *final(self))
                    &&& final(self).entries_map().dom() == old(self).entries_map().dom().insert(k)
                    &&& final(self).entries_map().contains_key(k)
                    &&& final(self).entries_map()[k].wd_spec() == new_entry.wd_spec()
                    &&& final(self).entries_map()[k].name_spec() == new_entry.name_spec()
                    &&& (final(self).entries_map()[k] is Dir <==> new_entry is Dir)
                    &&& (final(self).entries_map()[k] is File <==> new_entry is File)
                    &&& (final(self).entries_map()[k] is Symlink <==> new_entry is Symlink)
                    &&& final(self).entries_map()[k].link_spec() == new_entry.link_spec()
                    &&& (new_entry is Symlink ==> symlink_rules_spec(
                        final(self).entries_map()[k],
                    ) == symlink_rules_spec(new_entry))
                    &&& final(self).entries_map()[k].children_spec() == new_entry.children_spec()
                    &&& final(self).wd_index().contains_key(new_entry.wd_spec())
                    &&& final(self).wd_index()[new_entry.wd_spec()]@.contains(k)
                    &&& (!old(self).wd_index().contains_key(new_entry.wd_spec()) ==> final(self).wd_index()[new_entry.wd_spec()]@ == seq![k])
                    &&& final(self).entries_len() == old(self).entries_len() + 1
                    &&& (old(self).wd_index().contains_key(parent_of(new_entry.wd_spec()))
                        ==> ({
                        let pk = old(self).wd_index()[parent_of(new_entry.wd_spec())]@[0];
                        final(self).entries_map()[pk].children_spec().contains_key(
                            leaf_of(new_entry.wd_spec()),
                        ) && final(self).entries_map()[pk].children_spec()[leaf_of(
                            new_entry.wd_spec(),
                        )] == k
                    }))
                    &&& (forall|q: Seq<char>| q != new_entry.wd_spec() ==> (old(self).wd_index().contains_key(q) == final(self).wd_index().contains_key(q)) && (
                    old(self).wd_index().contains_key(q) ==> final(self).wd_index()[q] == old(self).wd_index()[q]))
                    &&& bindings_tracked(*old(self), *final(self))
                    &&& (forall|d: EntryKey| (#[trigger] old(self).entries_map().contains_key(d))
                        && (!old(self).wd_index().contains_key(parent_of(new_entry.wd_spec()))
                        || d != old(self).wd_index()[parent_of(new_entry.wd_spec())]@[0])
                        ==> final(self).entries_map()[d] == old(self).entries_map()[d])
                    &&& (old(self).wd_index().contains_key(parent_of(new_entry.wd_spec())) ==> ({
                        let pk = old(self).wd_index()[parent_of(new_entry.wd_spec())]@[0];
                        final(self).entries_map()[pk].children_spec() == old(self).entries_map()[pk].children_spec().insert(leaf_of(new_entry.wd_spec()), k)
                    }))
                },
                Result::Err(e) => *final(self) == *old(self) && attach_refusal(
                    *old(self),
                    new_entry.wd_spec(),
                ) == Option::Some(e),
            },
    {
        let wd: String = new_entry.path().clone();
        let name: String = new_entry.name().clone();
        let parent_path: String = match parent(wd.as_str()) {
            Option::Some(p) => p,
            Option::None => {
                proof {
                    assert(false);
                }
                return Result::Err(FsError::ParentLookup);
            },
        };
        let looked_up = self.lookup(parent_path.as_str());
        let mut parent_key: Option<EntryKey> = Option::None;
        match looked_up {
            Option::Some(pk) => {
                match self.entries.get(pk) {
                    Option::Some(pe) => match pe {
                        Entry::Dir { children, .. } => {
                            proof {
                                assert(self.entries_map()[pk].inv());
                            }
                            if children.contains(name.as_str()) {
                                return Result::Err(FsError::Existing);
                            }
                        },
                        _ => {
                            return Result::Err(FsError::ParentNotValid);
                        },
                    },
                    Option::None => {
                        proof {
                            assert(false);
                        }
                        return Result::Err(FsError::ParentLookup);
                    },
                }
                parent_key = Option::Some(pk);
            },
            Option::None => {},
        }
        let entry = new_entry.with_parent(parent_key);
        let ghost mid0 = *self;
        let k = self.register_entry(entry);
        let ghost mid = *self;
        match parent_key {
            Option::Some(pk) => {
                proof {
                    assert(mid.entries_map().contains_key(pk));
                }
                let pe = self.entries.take(pk);
                match pe {
                    Entry::Dir { name: dn, parent: dp, children, wd: dwd } => {
                        let mut children = children;
                        let inserted = children.insert_new(name, k);
                        proof {
                            assert(inserted);
                        }
                        self.entries.put_back(
                            pk,
                            Entry::Dir { name: dn, parent: dp, children, wd: dwd },
                        );
                        proof {
                            assert(self.entries_map() =~= mid.entries_map().insert(
                                pk,
                                self.entries_map()[pk],
                            ));
                            assert forall|q: EntryKey| mid.key_known_spec(q) implies
                                self.key_known_spec(q) by {
                                if q == pk {
                                    self.entries.lemma_contains_known(pk);
                                }
                            }
                            assert(self.key_known_spec(k)) by {
                                self.entries.lemma_contains_known(k);
                            }
                            lemma_attach_wf(mid, *self, pk, new_entry.name_spec(), k);
                            assert(preserves_entries(mid, *self)) by {
                                assert forall|q: EntryKey|
                                    #[trigger] mid.entries_map().contains_key(q) implies
                                    self.entries_map().contains_key(q) && entry_shape_eq(
                                    mid.entries_map()[q],
                                    self.entries_map()[q],
                                ) by {
                                    if q != pk {
                                        assert(self.entries_map()[q] == mid.entries_map()[q]);
                                    }
                                }
                            }
                        }
                    },
                    pe => {
                        proof {
                            assert(false);
                        }
                        self.entries.put_back(pk, pe);
                    },
                }
            },
            Option::None => {},
        }
        proof {
            let p = new_entry.wd_spec();
            if parent_key is None {
                assert(!old(self).wd_index().contains_key(parent_of(p)));
                assert(attach_refusal(*old(self), p) is None);
            } else {
                assert(attach_refusal(*old(self), p) is None);
            }
            assert(self.entries_map().dom() =~= old(self).entries_map().dom().insert(k));
            lemma_preserves_trans(*old(self), mid, *self);
            assert(self.wd_index()[p]@.contains(k)) by {
                if old(self).wd_index().contains_key(p) {
                    lemma_push_contains(old(self).wd_index()[p]@, k);
                } else {
                    assert(self.wd_index()[p]@[0] == k);
                }
            }
            assert(bindings_tracked(*old(self), *self)) by {
                assert forall|d: EntryKey, m: Seq<char>|
                    #![trigger self.entries_map()[d].children_spec().contains_key(m)]
                    self.entries_map().contains_key(d)
                        && self.entries_map()[d].children_spec().contains_key(m) && !(old(self).entries_map().contains_key(d) && old(self).entries_map()[d].children_spec().contains_key(m)) implies
                    self.wd_index().contains_key(
                    join_of(self.entries_map()[d].wd_spec(), m),
                ) by {
                    if d == k {
                        assert(self.entries_map()[k].children_spec()
                            =~= Map::<Seq<char>, EntryKey>::empty());
                        assert(false);
                    } else if old(self).entries_map().contains_key(d) {
                        if !(old(self).wd_index().contains_key(parent_of(p)) && d == old(self).wd_index()[parent_of(p)]@[0]) {
                            assert(self.entries_map()[d] == old(self).entries_map()[d]);
                            assert(false);
                        } else {
                            assert(self.entries_map()[d].children_spec() == old(self).entries_map()[d].children_spec().insert(leaf_of(p), k));
                            assert(m == leaf_of(p));
                            assert(old(self).entries_map()[d].wd_spec() == parent_of(p));
                            assert(entry_shape_eq(
                                old(self).entries_map()[d],
                                self.entries_map()[d],
                            ));
                            crate::paths::lemma_path_reconstruct(p);
                            assert(join_of(self.entries_map()[d].wd_spec(), m) == p);
                        }
                    } else {
                        assert(false);
                    }
                }
            }
        }
        Result::Ok(k)
    }

    /// Inserts a new entry for the path when it passes the rules: a
    /// directory is watched and entered recursively, a symlink additionally
    /// admits its target, a file is simply tracked. `fuel` bounds the
    /// nesting depth entered; symlink-loop detection beyond it is deferred.
    fn insert_rec(
        &mut self,
        path: &String,
        snap: &FsSnapshot,
        events: &mut Vec<Event>,
        fuel: u64,
    ) -> (r: Result<Option<EntryKey>, FsError>)
        requires
            old(self).well_formed(),
            snap.inv(),
            path_valid(path@),
        ensures
            final(self).well_formed(),
            same_config(*old(self), *final(self)),
            preserves_entries(*old(self), *final(self)),
            bindings_tracked(*old(self), *final(self)),
            new_events_ok(*old(self), *final(self), old(events)@, final(events)@),
            forall|j: int| old(events)@.len() <= j < final(events)@.len() ==> final(self).passes_spec(
                final(self).entries_map()[(#[trigger] final(events)@[j]).key_spec()].wd_spec(),
                snap@,
            ),
            (fuel >= 1 && {
                let p = path@;
                let pre = *old(self);
                &&& pre.passes_spec(p, snap@)
                &&& snap@.contains_key(p)
                &&& !(snap@[p] is Symlink)
                &&& (resolve_spec(snap@, p, MAX_LINK_FOLLOW as nat) matches Option::Some(n)
                    && !(n is Dir))
                &&& p != root_seq()
                &&& attach_refusal(pre, p) is None
                &&& pre.entries_len() < usize::MAX
            }) ==> final(events)@.len() == old(events)@.len() + 1 && old(events)@ == final(events)@.take(old(events)@.len() as int) && final(events)@.last() is New && (!old(self).wd_index().contains_key(path@) ==> final(self).wd_index()[path@]@ == seq![final(events)@.last().key_spec()]),
            (fuel >= 2 && {
                let p = path@;
                let pre = *old(self);
                &&& pre.passes_spec(p, snap@)
                &&& snap@.contains_key(p)
                &&& !(snap@[p] is Symlink)
                &&& (resolve_spec(snap@, p, MAX_LINK_FOLLOW as nat) matches Option::Some(n) && n
                    is Dir)
                &&& p != root_seq()
                &&& attach_refusal(pre, p) is None
                &&& !pre.wd_index().contains_key(p)
                &&& final(self).entries_len() < usize::MAX
            }) ==> (forall|j: int|
                0 <= j < node_children(
                    resolve_spec(snap@, path@, MAX_LINK_FOLLOW as nat)->0,
                ).len() ==> ({
                    let c = join_of(
                        path@,
                        (#[trigger] node_children(
                            resolve_spec(snap@, path@, MAX_LINK_FOLLOW as nat)->0,
                        )[j])@,
                    );
                    (old(self).passes_spec(c, snap@) && snap@.contains_key(c) && resolve_spec(
                        snap@,
                        c,
                        MAX_LINK_FOLLOW as nat,
                    ) is Some) ==> final(self).wd_index().contains_key(c)
                })),
            (fuel >= 2 && {
                let p = path@;
                let pre = *old(self);
                &&& pre.passes_spec(p, snap@)
                &&& snap@.contains_key(p)
                &&& resolve_spec(snap@, p, MAX_LINK_FOLLOW as nat) is Some
                &&& snap@[p] is Symlink
                &&& p != root_seq()
                &&& attach_refusal(pre, p) is None
                &&& target_insert_clean(pre, p, node_target(snap@[p]), snap@)
            }) ==> final(self).wd_index().contains_key(node_target(snap@[path@])) && (exists|
                k2: EntryKey,
            |
                #[trigger] inserted_kind_ok(
                    *final(self),
                    k2,
                    node_target(snap@[path@]),
                    snap@,
                )),
            (fuel >= 1 && old(self).entries_len() < usize::MAX) ==> ({
                let p = path@;
                let pre = *old(self);
                if !pre.passes_spec(p, snap@) {
                    r == Result::<Option<EntryKey>, FsError>::Ok(Option::<EntryKey>::None)
                        && same_tree(pre, *final(self)) && final(events)@ == old(events)@
                } else if !snap@.contains_key(p) {
                    r == Result::<Option<EntryKey>, FsError>::Ok(Option::<EntryKey>::None)
                        && same_tree(pre, *final(self)) && final(events)@ == old(events)@
                } else if resolve_spec(snap@, p, MAX_LINK_FOLLOW as nat) is None {
                    (r matches Result::Err(FsError::PathNotValid(q)) && q@ == p) && same_tree(
                        pre,
                        *final(self),
                    ) && final(events)@ == old(events)@
                } else if p == root_seq() {
                    (r matches Result::Err(FsError::PathNotValid(q)) && q@ == p) && same_tree(
                        pre,
                        *final(self),
                    ) && final(events)@ == old(events)@
                } else if attach_refusal(pre, p) is Some {
                    (attach_refusal(pre, p) matches Option::Some(e) && r == Result::<
                        Option<EntryKey>,
                        FsError,
                    >::Err(e)) && same_tree(pre, *final(self)) && final(events)@ == old(events)@
                } else {
                    (r matches Result::Ok(ko) && ko matches Option::Some(k) && inserted_kind_ok(
                        *final(self),
                        k,
                        p,
                        snap@,
                    ) && !pre.entries_map().contains_key(k) && (pre.wd_index().contains_key(
                        parent_of(p),
                    ) ==> ({
                        let pk = pre.wd_index()[parent_of(p)]@[0];
                        final(self).entries_map()[pk].children_spec().contains_key(leaf_of(p))
                            && final(self).entries_map()[pk].children_spec()[leaf_of(p)] == k
                    })))
                }
            }),
        decreases fuel,
    {
        if fuel == 0 {
            proof {
                lemma_frame_refl(*self, events@);
            }
            return Result::Ok(Option::None);
        }
        if self.entries.len() == usize::MAX {
            proof {
                lemma_frame_refl(*self, events@);
            }
            return Result::Ok(Option::None);
        }
        if !self.passes(path.as_str(), snap) {
            proof {
                lemma_frame_refl(*self, events@);
            }
            return Result::Ok(Option::None);
        }
        let lstat_missing = match snap.get(path.as_str()) {
            Option::Some(_) => false,
            Option::None => true,
        };
        if lstat_missing {
            proof {
                lemma_frame_refl(*self, events@);
            }
            return Result::Ok(Option::None);
        }
        let is_dir_resolved = match snap.resolve(path.as_str(), MAX_LINK_FOLLOW) {
            Option::Some(node) => node.is_dir_node(),
            Option::None => {
                proof {
                    lemma_frame_refl(*self, events@);
                }
                return Result::Err(FsError::PathNotValid(path.clone()));
            },
        };
        if is_root(path.as_str()) {
            proof {
                lemma_frame_refl(*self, events@);
            }
            return Result::Err(FsError::PathNotValid(path.clone()));
        }
        let name = leaf(path.as_str());
        let is_symlink_node = match snap.get(path.as_str()) {
            Option::Some(node) => match node {
                FsNode::Symlink { .. } => true,
                _ => false,
            },
            Option::None => false,
        };
        if is_dir_resolved && !is_symlink_node {
            let names: Vec<String> = match snap.resolve(path.as_str(), MAX_LINK_FOLLOW) {
                Option::Some(FsNode::Dir { children }) => clone_names(children),
                _ => {
                    proof {
                        assert(false);
                    }
                    Vec::new()
                },
            };
            proof {
                crate::snapshot::lemma_resolve_in_map(snap@, path@, MAX_LINK_FOLLOW as nat);
                let q = choose|q: Seq<char>| #[trigger] snap@.contains_key(q) && snap@[q]
                    == resolve_spec(snap@, path@, MAX_LINK_FOLLOW as nat)->0;
                assert(snap@[q].node_valid());
            }
            let entry = Entry::Dir {
                name,
                parent: Option::None,
                children: AssocMap::new(),
                wd: path.clone(),
            };
            let k = match self.register_as_child(entry) {
                Result::Ok(k) => k,
                Result::Err(e) => {
                    proof {
                        lemma_frame_refl(*self, events@);
                    }
                    return Result::Err(e);
                },
            };
            events.push(Event::New(k));
            let ghost s1 = *self;
            let ghost e1 = events@;
            let ghost clean_dir = fuel >= 2 && !old(self).wd_index().contains_key(path@);
            proof {
                lemma_single_new(*old(self), s1, old(events)@, e1, k);
                lemma_passes_monotone(*old(self), s1, path@, snap@);
                if clean_dir {
                    assert(s1.wd_index()[path@]@ =~= seq![k]);
                }
            }
            let n_children = names.len();
            let mut i: usize = 0;
            while i < n_children
                invariant
                    self.well_formed(),
                    snap.inv(),
                    path_valid(path@),
                    fuel >= 1,
                    n_children == names@.len(),
                    0 <= i <= n_children,
                    forall|j: int| 0 <= j < names@.len() ==> component_valid(
                        (#[trigger] names@[j])@,
                    ),
                    same_config(*old(self), *self),
                    preserves_entries(s1, *self),
                    preserves_entries(*old(self), *self),
                    bindings_tracked(s1, *self),
                    bindings_tracked(*old(self), *self),
                    new_events_ok(*old(self), *self, old(events)@, events@),
                    forall|j: int| old(events)@.len() <= j < events@.len() ==> self.passes_spec(
                        self.entries_map()[(#[trigger] events@[j]).key_spec()].wd_spec(),
                        snap@,
                    ),
                    s1.entries_map().contains_key(k),
                    s1.entries_map()[k] is Dir,
                    s1.entries_map()[k].wd_spec() == path@,
                    s1.entries_map()[k].children_spec() == Map::<Seq<char>, EntryKey>::empty(),
                    clean_dir ==> fuel >= 2 && !old(self).wd_index().contains_key(path@),
                    clean_dir ==> s1.wd_index().contains_key(path@) && s1.wd_index()[path@]@
                        == seq![k],
                    clean_dir ==> (forall|j: int| 0 <= j < i ==> ({
                        let c = join_of(path@, (#[trigger] names@[j])@);
                        (old(self).passes_spec(c, snap@) && snap@.contains_key(c)
                            && resolve_spec(snap@, c, MAX_LINK_FOLLOW as nat) is Some)
                            ==> self.wd_index().contains_key(c) || self.entries_len()
                            >= usize::MAX
                    })),
                decreases n_children - i,
            {
                let child = join(path.as_str(), names[i].as_str());
                let ghost mid = *self;
                let ghost em = events@;
                let child_result = self.insert_rec(&child, snap, events, fuel - 1);
                proof {
                    // Errors from a child are swallowed so that a single bad
                    // child does not prevent siblings from being tracked.
                    if clean_dir {
                        let c = child@;
                        if old(self).passes_spec(c, snap@) && snap@.contains_key(c)
                            && resolve_spec(snap@, c, MAX_LINK_FOLLOW as nat) is Some
                            && mid.entries_len() < usize::MAX {
                            lemma_passes_monotone(*old(self), mid, c, snap@);
                            assert(c != root_seq()) by {
                                if c == root_seq() {
                                    assert(c.len() == 1);
                                }
                            }
                            assert(mid.wd_index().contains_key(path@) && mid.wd_index()[
                                path@
                            ]@[0] == k);
                            assert(mid.entries_map().contains_key(k) && mid.entries_map()[k]
                                is Dir) by {
                                assert(entry_shape_eq(
                                    s1.entries_map()[k],
                                    mid.entries_map()[k],
                                ));
                            }
                            if mid.entries_map()[k].children_spec().contains_key(leaf_of(c)) {
                                // An earlier round already bound this name,
                                // and every new binding names a tracked path.
                                assert(mid.wd_index().contains_key(
                                    join_of(mid.entries_map()[k].wd_spec(), leaf_of(c)),
                                ));
                                assert(mid.entries_map()[k].wd_spec() == path@);
                                assert(join_of(path@, leaf_of(c)) == c);
                                assert(self.wd_index().contains_key(c));
                            } else {
                                assert(attach_refusal(mid, c) is None);
                                assert(mid.passes_spec(c, snap@));
                                assert(snap@.contains_key(c));
                                assert(!(resolve_spec(snap@, c, MAX_LINK_FOLLOW as nat)
                                    is None));
                                assert(c != root_seq());
                                assert(fuel - 1 >= 1 && mid.entries_len() < usize::MAX);
                                assert(child_result is Ok);
                                assert(self.wd_index().contains_key(c));
                            }
                        }
                    }
                    lemma_preserves_trans(s1, mid, *self);
                    lemma_bindings_tracked_trans(s1, mid, *self);
                    lemma_bindings_tracked_trans(*old(self), mid, *self);
                    lemma_new_events_compose(
                        *old(self),
                        mid,
                        *self,
                        old(events)@,
                        em,
                        events@,
                    );
                    assert forall|j: int| old(events)@.len() <= j < events@.len() implies
                        self.passes_spec(
                        self.entries_map()[(#[trigger] events@[j]).key_spec()].wd_spec(),
                        snap@,
                    ) by {
                        if j < em.len() {
                            assert(events@[j] == em[j]);
                            let kj = em[j].key_spec();
                            assert(mid.entries_map().contains_key(kj));
                            assert(entry_shape_eq(
                                mid.entries_map()[kj],
                                self.entries_map()[kj],
                            ));
                            lemma_passes_monotone(
                                mid,
                                *self,
                                mid.entries_map()[kj].wd_spec(),
                                snap@,
                            );
                        }
                    }
                }
                match child_result {
                    Result::Ok(_) => {},
                    Result::Err(_) => {},
                }
                i += 1;
            }
            proof {
                lemma_preserves_trans(*old(self), s1, *self);
                assert(inserted_kind_ok(*self, k, path@, snap@)) by {
                    assert(s1.entries_map().contains_key(k));
                    assert(s1.wd_index()[path@]@.contains(k));
                }
                if clean_dir && self.entries_len() < usize::MAX {
                    let node = resolve_spec(snap@, path@, MAX_LINK_FOLLOW as nat)->0;
                    assert forall|j: int| 0 <= j < node_children(node).len() implies ({
                        let c = join_of(path@, (#[trigger] node_children(node)[j])@);
                        (old(self).passes_spec(c, snap@) && snap@.contains_key(c)
                            && resolve_spec(snap@, c, MAX_LINK_FOLLOW as nat) is Some)
                            ==> self.wd_index().contains_key(c)
                    }) by {
                        assert((names@[j])@ == (node_children(node)[j])@);
                    }
                }
            }
            return Result::Ok(Option::Some(k));
        }
        let target_opt: Option<String> = match snap.get(path.as_str()) {
            Option::Some(FsNode::Symlink { target }) => Option::Some(target.clone()),
            _ => Option::None,
        };
        match target_opt {
            Option::Some(target) => {
                proof {
                    assert(snap@[path@].node_valid());
                }
                let mut link_rules = Rules::new();
                // A pattern the glob engine refuses leaves the rest of the
                // scope out; the symlink keeps what compiled before it.
                let compiled = append_rules(&mut link_rules, target.as_str());
                let ghost scope = link_rules;
                proof {
                    assert(derived_scope_ok(scope, target@)) by {
                        assert(scope.exc() =~= Seq::<Matcher>::empty());
                        if forall|j: int| 0 <= j < appended_patterns(target@).len()
                            ==> crate::rule::glob_pattern_ok(
                            #[trigger] appended_patterns(target@)[j],
                        ) {
                            assert(compiled is Ok);
                            assert(scope.inc().len() == appended_patterns(target@).len());
                        }
                    }
                }
                match compiled {
                    Result::Ok(_) => {},
                    Result::Err(_) => {},
                }
                let entry = Entry::Symlink {
                    name,
                    parent: Option::None,
                    wd: path.clone(),
                    link: target.clone(),
                    rules: link_rules,
                };
                let k = match self.register_as_child(entry) {
                    Result::Ok(k) => k,
                    Result::Err(e) => {
                        proof {
                            lemma_frame_refl(*self, events@);
                        }
                        return Result::Err(e);
                    },
                };
                events.push(Event::New(k));
                let ghost s1 = *self;
                let ghost e1 = events@;
                proof {
                    lemma_single_new(*old(self), s1, old(events)@, e1, k);
                }
                let ghost clean_target = fuel >= 2 && target_insert_clean(
                    *old(self),
                    path@,
                    target@,
                    snap@,
                );
                let target_tracked = match self.lookup(target.as_str()) {
                    Option::Some(_) => true,
                    Option::None => false,
                };
                proof {
                    if clean_target {
                        assert(!s1.wd_index().contains_key(target@));
                        assert(!target_tracked);
                    }
                }
                if !target_tracked {
                    let ghost mid = *self;
                    let ghost em = events@;
                    proof {
                        if clean_target {
                            let pre = *old(self);
                            let p = path@;
                            let t = target@;
                            assert(mid.entries_len() < usize::MAX);
                            assert(mid.passes_spec(t, snap@)) by {
                                if pre.initial_dir_target_spec(t, snap@) {
                                    assert(mid.initial_dir_target_spec(t, snap@));
                                } else if pre.symlink_grants_spec(t) {
                                    let kg = choose|kg: EntryKey| key_grants(pre, kg, t);
                                    assert(mid.entries_map().contains_key(kg));
                                    assert(entry_shape_eq(
                                        pre.entries_map()[kg],
                                        mid.entries_map()[kg],
                                    ));
                                    assert(key_grants(mid, kg, t));
                                } else {
                                    assert(scope_admits(t) && pre.rules_spec().included_spec(t));
                                    let sc = symlink_rules_spec(mid.entries_map()[k]);
                                    assert(sc == scope);
                                    let j = choose|j: int|
                                        0 <= j < appended_patterns(t).len()
                                            && crate::rule::glob_matches(
                                            #[trigger] appended_patterns(t)[j],
                                            t,
                                        );
                                    assert(sc.inc().len() == appended_patterns(t).len());
                                    assert((sc.inc()[j]) matches Matcher::Glob(g) && g@
                                        == appended_patterns(t)[j]);
                                    assert((sc.inc()[j]).matches_spec(t));
                                    assert(sc.included_spec(t));
                                    assert(!sc.excluded_spec(t)) by {
                                        if sc.excluded_spec(t) {
                                            let w = choose|w: int|
                                                0 <= w < sc.exc().len() && (
                                                #[trigger] sc.exc()[w]).matches_spec(t);
                                            assert(false);
                                        }
                                    }
                                    assert(key_grants(mid, k, t));
                                    assert(mid.symlink_grants_spec(t));
                                }
                            }
                            assert(attach_refusal(mid, t) is None) by {
                                if mid.wd_index().contains_key(parent_of(t)) {
                                    assert(pre.wd_index().contains_key(parent_of(t)));
                                    assert(mid.wd_index()[parent_of(t)] == pre.wd_index()[
                                        parent_of(t)
                                    ]);
                                    let pk2 = pre.wd_index()[parent_of(t)]@[0];
                                    assert(pre.entries_map().contains_key(pk2));
                                    assert(pre.entries_map()[pk2] is Dir);
                                    assert(entry_shape_eq(
                                        pre.entries_map()[pk2],
                                        mid.entries_map()[pk2],
                                    ));
                                    if mid.entries_map()[pk2].children_spec().contains_key(
                                        leaf_of(t),
                                    ) {
                                        if pre.entries_map()[pk2].children_spec().contains_key(
                                            leaf_of(t),
                                        ) {
                                            assert(false);
                                        } else {
                                            // The only new binding is the symlink's own, so
                                            // the target would have to be the symlink itself.
                                            assert(mid.entries_map().contains_key(pk2));
                                            if pre.wd_index().contains_key(parent_of(p)) && pk2
                                                == pre.wd_index()[parent_of(p)]@[0] {
                                                // The one new binding is the symlink's own,
                                                // so the target would have to be the symlink
                                                // itself.
                                                assert(mid.entries_map()[pk2].children_spec()
                                                    == pre.entries_map()[
                                                    pk2
                                                ].children_spec().insert(leaf_of(p), k));
                                                assert(leaf_of(t) == leaf_of(p));
                                                assert(pre.entries_map()[pk2].wd_spec()
                                                    == parent_of(t));
                                                assert(pre.entries_map()[pk2].wd_spec()
                                                    == parent_of(p));
                                                crate::paths::lemma_path_reconstruct(t);
                                                crate::paths::lemma_path_reconstruct(p);
                                                assert(t == p);
                                                assert(false);
                                            } else {
                                                assert(pre.entries_map().contains_key(pk2));
                                                assert(self.entries_map()[pk2]
                                                    == pre.entries_map()[pk2]);
                                                assert(mid.entries_map()[pk2]
                                                    == pre.entries_map()[pk2]);
                                                assert(false);
                                            }
                                        }
                                    }
                                }
                            }
                        }
                    }
                    // The symlink may have just granted its target
                    // admission; track the target too if it is not yet.
                    let target_result = self.insert_rec(&target, snap, events, fuel - 1);
                    proof {
                        lemma_preserves_trans(s1, mid, *self);
                        lemma_bindings_tracked_trans(*old(self), mid, *self);
                        lemma_new_events_compose(
                            *old(self),
                            mid,
                            *self,
                            old(events)@,
                            em,
                            events@,
                        );
                        if clean_target {
                            assert(self.wd_index().contains_key(target@));
                        }
                    }
                    match target_result {
                        Result::Ok(_) => {},
                        Result::Err(_) => {},
                    }
                }
                proof {
                    lemma_preserves_trans(*old(self), s1, *self);
                    assert(inserted_kind_ok(*self, k, path@, snap@)) by {
                        assert(s1.entries_map().contains_key(k));
                        assert(s1.wd_index()[path@]@.contains(k));
                        assert(target@ == node_target(snap@[path@]));
                        assert(symlink_rules_spec(s1.entries_map()[k]) == scope);
                        assert(symlink_rules_spec(self.entries_map()[k]) == scope) by {
                            assert(entry_shape_eq(
                                s1.entries_map()[k],
                                self.entries_map()[k],
                            ));
                        }
                    }
                    assert forall|j: int| old(events)@.len() <= j < events@.len() implies
                        self.passes_spec(
                        self.entries_map()[(#[trigger] events@[j]).key_spec()].wd_spec(),
                        snap@,
                    ) by {
                        if j == old(events)@.len() {
                            assert(events@[j].key_spec() == k);
                            assert(self.entries_map()[k].wd_spec() == path@);
                            lemma_passes_monotone(*old(self), *self, path@, snap@);
                        }
                    }
                }
                Result::Ok(Option::Some(k))
            },
            Option::None => {
                let entry = Entry::File { name, parent: Option::None, wd: path.clone() };
                let k = match self.register_as_child(entry) {
                    Result::Ok(k) => k,
                    Result::Err(e) => {
                        proof {
                            lemma_frame_refl(*self, events@);
                        }
                        return Result::Err(e);
                    },
                };
                events.push(Event::New(k));
                proof {
                    lemma_single_new(*old(self), *self, old(events)@, events@, k);
                    assert(inserted_kind_ok(*self, k, path@, snap@));
                    lemma_passes_monotone(*old(self), *self, path@, snap@);
                }
                Result::Ok(Option::Some(k))
            },
        }
    }

    /// Emits `Delete` events and removes the entry and its descendants from
    /// the store, the watch-descriptor index and the symlink index.
    /// Directories emit no `Delete` themselves: their disappearance is
    /// carried by the recursive deletion of their contents. When the last
    /// symlink to a target goes and the target no longer passes, the target
    /// is removed as well.
    fn drop_entry(&mut self, entry_key: EntryKey, snap: &FsSnapshot, events: &mut Vec<Event>)
        requires
            old(self).well_formed(),
            snap.inv(),
        ensures
            final(self).well_formed(),
            same_config(*old(self), *final(self)),
            shrinks_entries(*old(self), *final(self)),
            delete_events_ok(*old(self), *final(self), old(events)@, final(events)@),
            final(self).entries_len() <= old(self).entries_len(),
            !final(self).entries_map().contains_key(entry_key),
            old(self).entries_map().contains_key(entry_key) ==> final(self).entries_len() < old(self).entries_len(),
            narrow_removal(*old(self), *final(self), entry_key, snap@),
            (old(self).entries_map().contains_key(entry_key) && old(self).entries_map()[entry_key]
                is Dir) ==> (forall|m: Seq<char>| #[trigger] old(self).entries_map()[
                entry_key
            ].children_spec().contains_key(m) ==> !final(self).entries_map().contains_key(
                old(self).entries_map()[entry_key].children_spec()[m],
            )),
            orphans_target(*old(self), entry_key, snap@) ==> !final(self).entries_map().contains_key(
                old(self).wd_index()[old(self).entries_map()[entry_key].link_spec()]@[0],
            ),
        decreases old(self).entries_len(), 0nat,
    {
        let ghost pre = *old(self);
        let entry = match self.entries.remove(entry_key) {
            Option::Some(e) => e,
            Option::None => {
                proof {
                    lemma_shrink_refl(*self, events@);
                }
                return ;
            },
        };
        let k = entry_key;
        let path: String = entry.path().clone();
        match self.watch_descriptors.remove(path.as_str()) {
            Option::Some(l) => {
                let l2 = remove_key(l, k);
                if l2.len() == 0 {
                    self.watcher.unwatch(&path);
                    proof {
                        assert(self.wd_index() =~= pre.wd_index().remove(path@));
                    }
                } else {
                    self.watch_descriptors.set(path.clone(), l2);
                    proof {
                        assert(self.wd_index() =~= pre.wd_index().insert(
                            path@,
                            self.wd_index()[path@],
                        ));
                        assert(self.wd_index().dom() =~= pre.wd_index().dom());
                    }
                }
            },
            Option::None => {
                proof {
                    // The index always holds a live entry's path.
                    assert(false);
                }
            },
        }
        let link_opt: Option<String> = match &entry {
            Entry::Symlink { link, .. } => Option::Some(link.clone()),
            _ => Option::None,
        };
        match &link_opt {
            Option::Some(link) => {
                match self.symlinks.remove(link.as_str()) {
                    Option::Some(l) => {
                        let l2 = remove_key(l, k);
                        if l2.len() > 0 {
                            self.symlinks.set(link.clone(), l2);
                            proof {
                                assert(self.symlink_index() =~= pre.symlink_index().insert(
                                    link@,
                                    self.symlink_index()[link@],
                                ));
                            }
                        } else {
                            proof {
                                assert(self.symlink_index() =~= pre.symlink_index().remove(
                                    link@,
                                ));
                            }
                        }
                    },
                    Option::None => {
                        proof {
                            // A live symlink is always indexed under its
                            // target.
                            assert(false);
                        }
                    },
                }
            },
            Option::None => {},
        }
        proof {
            lemma_unregister_wf(pre, *self, k, entry);
        }
        let ghost s1 = *self;
        let ghost n1 = self.entries_len();
        proof {
            assert(shrinks_entries(pre, s1));
        }
        match entry {
            Entry::Dir { children, .. } => {
                proof {
                    // The removed entry is a directory, which the event
                    // predicate exempts from Delete emission.
                    assert(delete_events_ok(pre, s1, old(events)@, events@)) by {
                        assert(events@ =~= events@.take(events@.len() as int));
                        assert(pre.entries_map()[k] is Dir);
                    }
                }
                let keys = children.values();
                let n_keys = keys.len();
                let mut i: usize = 0;
                while i < n_keys
                    invariant
                        self.well_formed(),
                        snap.inv(),
                        n_keys == keys@.len(),
                        0 <= i <= n_keys,
                        same_config(pre, *self),
                        shrinks_entries(s1, *self),
                        shrinks_entries(pre, *self),
                        delete_events_ok(pre, *self, old(events)@, events@),
                        self.entries_len() <= n1,
                        n1 < old(self).entries_len(),
                        !s1.entries_map().contains_key(k),
                        forall|j: int| 0 <= j < i ==> !self.entries_map().contains_key(
                            #[trigger] keys@[j],
                        ),
                    decreases n_keys - i,
                {
                    let c = keys[i];
                    let ghost mid = *self;
                    let ghost em = events@;
                    self.drop_entry(c, snap, events);
                    proof {
                        lemma_shrinks_trans(s1, mid, *self);
                        lemma_shrinks_trans(pre, mid, *self);
                        lemma_delete_events_compose(pre, mid, *self, old(events)@, em, events@);
                        assert forall|j: int| 0 <= j < i + 1 implies
                            !self.entries_map().contains_key(#[trigger] keys@[j]) by {
                            if j < i {
                                if self.entries_map().contains_key(keys@[j]) {
                                    assert(mid.entries_map().contains_key(keys@[j]));
                                }
                            }
                        }
                    }
                    i += 1;
                }
                proof {
                    // Every binding of the dropped directory names one of
                    // the collected keys, and each of those is gone.
                    assert forall|m: Seq<char>|
                        #[trigger] entry.children_spec().contains_key(m) implies
                        !self.entries_map().contains_key(entry.children_spec()[m]) by {
                        crate::assoc::lemma_map_of_contains(children.pairs_spec(), m);
                        let w = choose|w: int|
                            0 <= w < children.pairs_spec().len() && (
                            #[trigger] children.pairs_spec()[w]).0@ == m;
                        crate::assoc::lemma_map_of_get(children.pairs_spec(), w);
                        assert(keys@[w] == children.pairs_spec()[w].1);
                        assert(entry.children_spec()[m] == keys@[w]);
                    }
                }
            },
            Entry::Symlink { link, .. } => {
                events.push(Event::Delete(k));
                let ghost e1 = events@;
                proof {
                    lemma_single_delete(pre, s1, old(events)@, e1, k);
                    if pre.initial_dir_target_spec(entry.link_spec(), snap@) {
                        assert(s1.initial_dir_target_spec(link@, snap@));
                        assert(s1.passes_spec(link@, snap@));
                    }
                    if orphans_target(pre, k, snap@) {
                        assert(!s1.passes_spec(link@, snap@)) by {
                            if s1.symlink_grants_spec(link@) {
                                let k2 = choose|k2: EntryKey| key_grants(s1, k2, link@);
                                assert(pre.entries_map().contains_key(k2));
                                assert(k2 != k);
                                assert(key_grants(pre, k2, link@));
                                assert(false);
                            }
                        }
                        assert(s1.wd_index().contains_key(link@) && s1.wd_index()[link@]
                            == pre.wd_index()[link@]);
                        assert(detach_refusal(s1, link@) is None) by {
                            if s1.wd_index().contains_key(parent_of(link@)) {
                                assert(pre.wd_index().contains_key(parent_of(link@)));
                                assert(s1.wd_index()[parent_of(link@)] == pre.wd_index()[
                                    parent_of(link@)
                                ]);
                                let pk2 = pre.wd_index()[parent_of(link@)]@[0];
                                assert(pre.entries_map().contains_key(pk2));
                                assert(pk2 != k) by {
                                    assert(pre.entries_map()[pk2].wd_spec() == parent_of(link@));
                                }
                                assert(s1.entries_map()[pk2] == pre.entries_map()[pk2]);
                            }
                        }
                    }
                }
                if !self.passes(link.as_str(), snap) {
                    // No remaining symlink admits the target and it fails
                    // the rules on its own: schedule it for removal too.
                    let ghost mid = *self;
                    let target_result = self.remove(&link, snap, events);
                    proof {
                        lemma_shrinks_trans(s1, mid, *self);
                        lemma_shrinks_trans(pre, mid, *self);
                        lemma_delete_events_compose(pre, mid, *self, old(events)@, e1, events@);
                        if orphans_target(pre, k, snap@) {
                            assert(target_result is Ok);
                            assert(!self.entries_map().contains_key(
                                pre.wd_index()[link@]@[0],
                            ));
                        }
                    }
                    match target_result {
                        Result::Ok(_) => {},
                        Result::Err(_) => {},
                    }
                }
            },
            Entry::File { .. } => {
                events.push(Event::Delete(k));
                proof {
                    lemma_single_delete(pre, s1, old(events)@, events@, k);
                }
            },
        }
    }

    /// Removes the entry tracked under the path from the tree: detaches it
    /// from its parent's children, then drops it and its descendants.
    pub fn remove(&mut self, path: &String, snap: &FsSnapshot, events: &mut Vec<Event>) -> (r:
        Result<(), FsError>)
        requires
            old(self).well_formed(),
            snap.inv(),
            path_valid(path@),
        ensures
            final(self).well_formed(),
            same_config(*old(self), *final(self)),
            shrinks_entries(*old(self), *final(self)),
            delete_events_ok(*old(self), *final(self), old(events)@, final(events)@),
            final(self).entries_len() <= old(self).entries_len(),
            old(self).wd_index().contains_key(path@) ==> narrow_removal(
                *old(self),
                *final(self),
                old(self).wd_index()[path@]@[0],
                snap@,
            ),
            (old(self).wd_index().contains_key(path@) && detach_refusal(*old(self), path@)
                is None && old(self).entries_map()[old(self).wd_index()[path@]@[0]] is Dir) ==> (
            forall|m: Seq<char>| #[trigger] old(self).entries_map()[old(self).wd_index()[
                path@
            ]@[0]].children_spec().contains_key(m) ==> !final(self).entries_map().contains_key(
                old(self).entries_map()[old(self).wd_index()[path@]@[0]].children_spec()[m],
            )),
            (old(self).wd_index().contains_key(path@) && detach_refusal(*old(self), path@)
                is None && orphans_target(*old(self), old(self).wd_index()[path@]@[0], snap@))
                ==> !final(self).entries_map().contains_key(
                old(self).wd_index()[old(self).entries_map()[old(self).wd_index()[
                    path@
                ]@[0]].link_spec()]@[0],
            ),
            match r {
                Result::Ok(()) => old(self).wd_index().contains_key(path@) && !final(self).entries_map().contains_key(old(self).wd_index()[path@]@[0]),
                Result::Err(e) => final(events)@ == old(events)@ && same_tree(
                    *old(self),
                    *final(self),
                ) && (e matches FsError::Lookup <==> !old(self).wd_index().contains_key(path@)) && (
                !old(self).wd_index().contains_key(path@) || detach_refusal(*old(self), path@)
                    is Some),
            },
        decreases old(self).entries_len(), 1nat,
    {
        let ghost pre = *old(self);
        let entry_key = match self.lookup(path.as_str()) {
            Option::Some(x) => x,
            Option::None => {
                proof {
                    lemma_shrink_refl(*self, events@);
                }
                return Result::Err(FsError::Lookup);
            },
        };
        if !is_root(path.as_str()) {
            let parent_path: String = match parent(path.as_str()) {
                Option::Some(p) => p,
                Option::None => {
                    proof {
                        assert(false);
                    }
                    return Result::Err(FsError::Lookup);
                },
            };
            match self.lookup(parent_path.as_str()) {
                Option::Some(parent_key) => {
                    let parent_is_dir = match self.entries.get(parent_key) {
                        Option::Some(pe) => pe.is_dir(),
                        Option::None => false,
                    };
                    if !parent_is_dir {
                        proof {
                            lemma_shrink_refl(*self, events@);
                        }
                        return Result::Err(FsError::ParentNotValid);
                    }
                    let name = leaf(path.as_str());
                    let ghost before = *self;
                    proof {
                        self.entries.lemma_len_bound();
                    }
                    let pe = self.entries.take(parent_key);
                    match pe {
                        Entry::Dir { name: dn, parent: dp, children, wd: dwd } => {
                            let mut children = children;
                            let removed = children.remove(name.as_str());
                            self.entries.put_back(
                                parent_key,
                                Entry::Dir { name: dn, parent: dp, children, wd: dwd },
                            );
                            proof {
                                assert(self.entries_map() =~= before.entries_map().insert(
                                    parent_key,
                                    self.entries_map()[parent_key],
                                ));
                                if removed is None {
                                    assert(self.entries_map()[parent_key].children_spec()
                                        =~= before.entries_map()[parent_key].children_spec().remove(
                                        name@,
                                    ));
                                }
                                assert forall|q: EntryKey| before.key_known_spec(q) implies
                                    self.key_known_spec(q) by {
                                    if q == parent_key {
                                        self.entries.lemma_contains_known(parent_key);
                                    }
                                }
                                lemma_detach_wf(before, *self, parent_key, name@);
                            }
                            match removed {
                                Option::Some(_) => {},
                                Option::None => {},
                            }
                        },
                        pe => {
                            proof {
                                assert(false);
                            }
                            self.entries.put_back(parent_key, pe);
                        },
                    }
                },
                Option::None => {},
            }
        }
        let ghost s1 = *self;
        proof {
            lemma_shrink_refl(s1, events@);
            assert(s1.entries_map().dom() =~= pre.entries_map().dom());
            if pre.entries_map().contains_key(entry_key) && s1.entries_map()[entry_key]
                != pre.entries_map()[entry_key] {
                // The detach touched only the parent entry, which lives at
                // a different path and so under a different key.
                assert(false);
            }
        }
        let ghost em = events@;
        proof {
            if orphans_target(pre, entry_key, snap@) {
                let t = pre.entries_map()[entry_key].link_spec();
                assert(orphans_target(s1, entry_key, snap@)) by {
                    assert(s1.entries_map()[entry_key] == pre.entries_map()[entry_key]);
                    assert forall|k2: EntryKey| key_grants(s1, k2, t) implies k2 == entry_key by {
                        assert(pre.entries_map().contains_key(k2));
                        assert(entry_shape_eq(pre.entries_map()[k2], s1.entries_map()[k2]));
                        assert(key_grants(pre, k2, t));
                    }
                    if s1.wd_index().contains_key(parent_of(t)) {
                        let pk2 = s1.wd_index()[parent_of(t)]@[0];
                        assert(entry_shape_eq(pre.entries_map()[pk2], s1.entries_map()[pk2]));
                    }
                }
            }
        }
        self.drop_entry(entry_key, snap, events);
        proof {
            lemma_shrinks_trans(pre, s1, *self);
            lemma_delete_events_compose(pre, s1, *self, old(events)@, em, events@);
            assert(narrow_removal(pre, *self, entry_key, snap@)) by {
                if pre.entries_map().contains_key(entry_key) && !(pre.entries_map()[entry_key]
                    is Dir) && (pre.entries_map()[entry_key] is Symlink
                    ==> pre.initial_dir_target_spec(
                    pre.entries_map()[entry_key].link_spec(),
                    snap@,
                )) {
                    assert(s1.entries_map()[entry_key] == pre.entries_map()[entry_key]);
                    assert(narrow_removal(s1, *self, entry_key, snap@));
                }
            }
        }
        Result::Ok(())
    }

    /// Handles a raw create notification: inserts the path.
    fn process_create(&mut self, watch_descriptor: &String, snap: &FsSnapshot, events: &mut Vec<
        Event,
    >) -> (r: Result<(), FsError>)
        requires
            old(self).well_formed(),
            snap.inv(),
            path_valid(watch_descriptor@),
        ensures
            final(self).well_formed(),
            same_config(*old(self), *final(self)),
            preserves_entries(*old(self), *final(self)),
            new_events_ok(*old(self), *final(self), old(events)@, final(events)@),
            insert_clean(*old(self), watch_descriptor@, snap@) ==> r is Ok && final(self).wd_index().contains_key(watch_descriptor@) && freshly_tracked(
                *old(self),
                *final(self),
                watch_descriptor@,
                snap@,
            ),
    {
        let outcome = self.insert(watch_descriptor, snap, events);
        proof {
            if insert_clean(*old(self), watch_descriptor@, snap@) {
                let ko = outcome->Ok_0;
                assert(inserted_kind_ok(*self, ko->0, watch_descriptor@, snap@));
            }
        }
        match outcome {
            Result::Ok(_) => Result::Ok(()),
            Result::Err(e) => Result::Err(e),
        }
    }

    /// Handles a raw removal notification: an initial root is kept so its
    /// later re-creation can be tracked; anything else is removed.
    fn process_delete(&mut self, watch_descriptor: &String, snap: &FsSnapshot, events: &mut Vec<
        Event,
    >) -> (r: Result<(), FsError>)
        requires
            old(self).well_formed(),
            snap.inv(),
            path_valid(watch_descriptor@),
        ensures
            final(self).well_formed(),
            same_config(*old(self), *final(self)),
            shrinks_entries(*old(self), *final(self)),
            delete_events_ok(*old(self), *final(self), old(events)@, final(events)@),
            !old(self).wd_index().contains_key(watch_descriptor@) ==> (r matches Result::Err(
                FsError::WatchEvent(q),
            ) && q@ == watch_descriptor@) && same_tree(*old(self), *final(self)) && final(events)@ == old(events)@,
            (old(self).wd_index().contains_key(watch_descriptor@) && is_initial_dir(
                *old(self),
                watch_descriptor@,
            )) ==> r is Ok && same_tree(*old(self), *final(self)) && final(events)@ == old(events)@,
            (old(self).wd_index().contains_key(watch_descriptor@) && !is_initial_dir(
                *old(self),
                watch_descriptor@,
            ) && detach_refusal(*old(self), watch_descriptor@) is None) ==> r is Ok && !final(self).entries_map().contains_key(old(self).wd_index()[watch_descriptor@]@[0]),
            old(self).wd_index().contains_key(watch_descriptor@) ==> narrow_removal(
                *old(self),
                *final(self),
                old(self).wd_index()[watch_descriptor@]@[0],
                snap@,
            ),
    {
        let entry_key = match self.get_first_entry(watch_descriptor.as_str()) {
            Result::Ok(k) => k,
            Result::Err(e) => {
                proof {
                    lemma_frame_refl(*self, events@);
                }
                return Result::Err(e);
            },
        };
        let path: String = match self.entries.get(entry_key) {
            Option::Some(e) => e.path().clone(),
            Option::None => {
                proof {
                    assert(false);
                }
                return Result::Err(FsError::Lookup);
            },
        };
        proof {
            assert(path@ == watch_descriptor@);
        }
        if list_contains(&self.initial_dirs, path.as_str()) {
            proof {
                lemma_frame_refl(*self, events@);
                let i = choose|i: int| 0 <= i < self.initial_dirs@.len() && (
                #[trigger] self.initial_dirs@[i])@ == path@;
                assert((self.initial_dirs_spec()[i])@ == watch_descriptor@);
            }
            return Result::Ok(());
        }
        proof {
            if is_initial_dir(*self, watch_descriptor@) {
                let i = choose|i: int| 0 <= i < self.initial_dirs_spec().len() && (
                #[trigger] self.initial_dirs_spec()[i])@ == watch_descriptor@;
                assert((self.initial_dirs@[i])@ == path@);
                assert(false);
            }
        }
        let removal = self.remove(&path, snap, events);
        match removal {
            Result::Ok(()) => Result::Ok(()),
            Result::Err(e) => Result::Err(e),
        }
    }

    /// Moves the entry tracked under `from` to `to`: detaches it from its
    /// old parent, drops whatever the destination already tracked, updates
    /// the entry's name, path and index membership, and attaches it under
    /// the destination's parent. An untracked source falls through to a
    /// plain insertion of the destination. A symlink keeps the target
    /// recorded at its creation.
    fn process_rename(
        &mut self,
        from_path: &String,
        to_path: &String,
        snap: &FsSnapshot,
        events: &mut Vec<Event>,
    ) -> (r: Result<(), FsError>)
        requires
            old(self).well_formed(),
            snap.inv(),
            path_valid(from_path@),
            path_valid(to_path@),
        ensures
            final(self).well_formed(),
            same_config(*old(self), *final(self)),
            emits_ok(*old(self), *final(self), old(events)@, final(events)@),
            !old(self).wd_index().contains_key(from_path@) ==> new_events_ok(
                *old(self),
                *final(self),
                old(events)@,
                final(events)@,
            ),
            old(self).wd_index().contains_key(from_path@) ==> delete_events_ok(
                *old(self),
                *final(self),
                old(events)@,
                final(events)@,
            ),
            forall|q: EntryKey| #[trigger] old(self).key_known_spec(q) ==> final(self).key_known_spec(q),
            old(self).wd_index().contains_key(from_path@) ==> (forall|k: EntryKey|
                #[trigger] final(self).entries_map().contains_key(k) ==> old(self).entries_map().contains_key(k)),
            ({
                let from = from_path@;
                let to = to_path@;
                (old(self).wd_index().contains_key(from) && from != to && to != root_seq()
                    && !old(self).wd_index().contains_key(to) && rename_refusal(
                    *old(self),
                    from,
                    to,
                ) is None) ==> ({
                    let k = old(self).wd_index()[from]@[0];
                    &&& r is Ok
                    &&& final(self).wd_index().contains_key(to)
                    &&& final(self).wd_index()[to]@ == seq![k]
                    &&& final(self).entries_map().contains_key(k)
                    &&& final(self).entries_map()[k].wd_spec() == to
                    &&& final(self).entries_map()[k].name_spec() == leaf_of(to)
                    &&& (final(self).entries_map()[k] is Dir <==> old(self).entries_map()[k]
                        is Dir)
                    &&& (final(self).entries_map()[k] is Symlink <==> old(self).entries_map()[k]
                        is Symlink)
                    &&& final(self).entries_map()[k].link_spec() == old(self).entries_map()[
                        k
                    ].link_spec()
                    &&& !(final(self).wd_index().contains_key(from) && final(self).wd_index()[
                        from
                    ]@.contains(k))
                    &&& (old(self).wd_index()[from]@.len() == 1 ==> !final(self).wd_index().contains_key(from))
                    &&& final(events)@ == old(events)@
                })
            }),
            (old(self).wd_index().contains_key(from_path@) && from_path@ != to_path@ && r is Err)
                ==> (to_path@ == root_seq() || rename_refusal(*old(self), from_path@, to_path@)
                is Some || old(self).wd_index().contains_key(to_path@)),
    {
        let ghost pre = *old(self);
        let k = match self.lookup(from_path.as_str()) {
            Option::Some(k) => k,
            Option::None => {
                let fall_through = self.insert(to_path, snap, events);
                proof {
                    lemma_emits_from_news(pre, *self, old(events)@, events@);
                }
                return match fall_through {
                    Result::Ok(_) => Result::Ok(()),
                    Result::Err(e) => Result::Err(e),
                };
            },
        };
        if is_root(to_path.as_str()) {
            proof {
                lemma_frame_refl(*self, events@);
            }
            return Result::Err(FsError::PathNotValid(to_path.clone()));
        }
        if str_eq(from_path.as_str(), to_path.as_str()) {
            proof {
                lemma_frame_refl(*self, events@);
            }
            return Result::Ok(());
        }
        let e_name: String;
        let e_parent: Option<EntryKey>;
        match self.entries.get(k) {
            Option::Some(e) => {
                e_name = e.name().clone();
                e_parent = e.parent();
            },
            Option::None => {
                proof {
                    assert(false);
                }
                return Result::Err(FsError::Lookup);
            },
        }
        match e_parent {
            Option::Some(pk) => {
                match self.entries.get(pk) {
                    Option::Some(pe) => {
                        if !pe.is_dir() {
                            proof {
                                lemma_frame_refl(*self, events@);
                            }
                            return Result::Err(FsError::ParentNotValid);
                        }
                    },
                    Option::None => {
                        proof {
                            lemma_frame_refl(*self, events@);
                        }
                        return Result::Err(FsError::ParentLookup);
                    },
                }
            },
            Option::None => {},
        }
        let to_parent: String = match parent(to_path.as_str()) {
            Option::Some(p) => p,
            Option::None => {
                proof {
                    assert(false);
                }
                return Result::Err(FsError::Lookup);
            },
        };
        let npk_checked: Option<EntryKey> = match self.lookup(to_parent.as_str()) {
            Option::Some(npk) => {
                let dir_parent = match self.entries.get(npk) {
                    Option::Some(pe) => pe.is_dir(),
                    Option::None => false,
                };
                if !dir_parent {
                    proof {
                        lemma_frame_refl(*self, events@);
                    }
                    return Result::Err(FsError::ParentNotValid);
                }
                if npk.index == k.index && npk.version == k.version {
                    // The destination's parent is the moved entry itself;
                    // nothing sensible can be attached.
                    Option::None
                } else {
                    Option::Some(npk)
                }
            },
            Option::None => Option::None,
        };
        // Whatever the destination already tracked is discarded: the
        // filesystem object it stood for was just overwritten.
        proof {
            lemma_frame_refl(*self, events@);
        }
        loop
            invariant_except_break
                self.well_formed(),
                snap.inv(),
                path_valid(to_path@),
                same_config(pre, *self),
                shrinks_entries(pre, *self),
                delete_events_ok(pre, *self, old(events)@, events@),
                !pre.wd_index().contains_key(to_path@) ==> same_tree(pre, *self) && events@
                    == old(events)@,
            ensures
                self.well_formed(),
                same_config(pre, *self),
                shrinks_entries(pre, *self),
                delete_events_ok(pre, *self, old(events)@, events@),
                !pre.wd_index().contains_key(to_path@) ==> same_tree(pre, *self) && events@
                    == old(events)@,
                !self.wd_index().contains_key(to_path@),
            decreases self.entries_len(),
        {
            let ck = match self.lookup(to_path.as_str()) {
                Option::Some(c) => c,
                Option::None => {
                    break ;
                },
            };
            let ghost mid = *self;
            let ghost em = events@;
            self.drop_entry(ck, snap, events);
            proof {
                lemma_shrinks_trans(pre, mid, *self);
                lemma_delete_events_compose(pre, mid, *self, old(events)@, em, events@);
                assert(self.entries_len() < mid.entries_len());
            }
        }
        let ghost s_con = *self;
        if !self.entries.contains(k) {
            // The destination's old subtree carried the source away with
            // it; there is nothing left to move.
            proof {
                lemma_emits_from_deletes(pre, s_con, s_con, old(events)@, events@);
            }
            return Result::Err(FsError::Lookup);
        }
        let cur_parent: Option<EntryKey> = match self.entries.get(k) {
            Option::Some(e) => e.parent(),
            Option::None => Option::None,
        };
        match cur_parent {
            Option::Some(pk) => {
                let pk_is_dir = match self.entries.get(pk) {
                    Option::Some(pe) => pe.is_dir(),
                    Option::None => false,
                };
                if pk_is_dir {
                    let ghost before = *self;
                    proof {
                        self.entries.lemma_len_bound();
                    }
                    let pe = self.entries.take(pk);
                    match pe {
                        Entry::Dir { name: dn, parent: dp, children, wd: dwd } => {
                            let mut children = children;
                            let removed = children.remove(e_name.as_str());
                            self.entries.put_back(
                                pk,
                                Entry::Dir { name: dn, parent: dp, children, wd: dwd },
                            );
                            proof {
                                assert(self.entries_map() =~= before.entries_map().insert(
                                    pk,
                                    self.entries_map()[pk],
                                ));
                                if removed is None {
                                    assert(self.entries_map()[pk].children_spec()
                                        =~= before.entries_map()[pk].children_spec().remove(
                                        e_name@,
                                    ));
                                }
                                assert forall|q: EntryKey| before.key_known_spec(q) implies
                                    self.key_known_spec(q) by {
                                    if q == pk {
                                        self.entries.lemma_contains_known(pk);
                                    }
                                }
                                lemma_detach_wf(before, *self, pk, e_name@);
                            }
                            match removed {
                                Option::Some(_) => {},
                                Option::None => {},
                            }
                        },
                        pe => {
                            proof {
                                assert(false);
                            }
                            self.entries.put_back(pk, pe);
                        },
                    }
                }
            },
            Option::None => {},
        }
        let ghost s_det = *self;
        proof {
            assert(s_det.entries_map().contains_key(k));
            assert(entry_shape_eq(pre.entries_map()[k], s_det.entries_map()[k]));
            assert forall|d: EntryKey, m: Seq<char>|
                #![trigger s_det.entries_map()[d].children_spec().contains_key(m)]
                s_det.entries_map().contains_key(d)
                    && s_det.entries_map()[d].children_spec().contains_key(m) implies
                s_det.entries_map()[d].children_spec()[m] != k by {
                if s_det.entries_map()[d].children_spec()[m] == k {
                    assert(s_det.entries_map()[k].parent_spec() == Option::Some(d)
                        && s_det.entries_map()[k].name_spec() == m);
                    assert(cur_parent == Option::Some(d));
                    assert(m == e_name@);
                    assert(!s_det.entries_map()[d].children_spec().contains_key(m));
                }
            }
        }
        // Update the entry's name, path and index membership. The kernel
        // watch is bound to the inode and follows the rename on its own,
        // so the adapter mirror moves without a kernel call.
        let new_name = leaf(to_path.as_str());
        let mut from_emptied = false;
        match self.watch_descriptors.remove(from_path.as_str()) {
            Option::Some(l) => {
                let l2 = remove_key(l, k);
                proof {
                    // A single-key source list is emptied by the move.
                    if l@.len() == 1 && l@[0] == k && l2@.len() > 0 {
                        assert(l@.contains(l2@[0]) && l2@[0] != k);
                        assert(false);
                    }
                }
                if l2.len() == 0 {
                    from_emptied = true;
                } else {
                    self.watch_descriptors.set(from_path.clone(), l2);
                }
            },
            Option::None => {
                proof {
                    assert(false);
                }
            },
        }
        proof {
            self.entries.lemma_len_bound();
        }
        let e_taken = self.entries.take(k);
        let relocated: Entry = match e_taken {
            Entry::Dir { name: _, parent, children, wd: _ } => Entry::Dir {
                name: new_name.clone(),
                parent: (match npk_checked {
                    Option::Some(npk) => Option::Some(npk),
                    Option::None => parent,
                }),
                children,
                wd: to_path.clone(),
            },
            Entry::File { name: _, parent, wd: _ } => Entry::File {
                name: new_name.clone(),
                parent: (match npk_checked {
                    Option::Some(npk) => Option::Some(npk),
                    Option::None => parent,
                }),
                wd: to_path.clone(),
            },
            Entry::Symlink { name: _, parent, wd: _, link, rules } => Entry::Symlink {
                name: new_name.clone(),
                parent: (match npk_checked {
                    Option::Some(npk) => Option::Some(npk),
                    Option::None => parent,
                }),
                wd: to_path.clone(),
                link,
                rules,
            },
        };
        self.entries.put_back(k, relocated);
        let mut to_list: Vec<EntryKey> = Vec::new();
        to_list.push(k);
        self.watch_descriptors.set(to_path.clone(), to_list);
        self.watcher.follow_rename(from_path, to_path, from_emptied);
        proof {
            assert(self.entries_map() =~= s_det.entries_map().insert(k, self.entries_map()[k]));
            assert(self.wd_index()[to_path@]@ =~= seq![k]);
            if from_emptied {
                assert(self.wd_index() =~= s_det.wd_index().remove(from_path@).insert(
                    to_path@,
                    self.wd_index()[to_path@],
                ));
            } else {
                assert(self.wd_index() =~= s_det.wd_index().insert(
                    from_path@,
                    self.wd_index()[from_path@],
                ).insert(to_path@, self.wd_index()[to_path@]));
            }
            assert forall|q: EntryKey| s_det.key_known_spec(q) implies self.key_known_spec(
                q,
            ) by {
                if q == k {
                    self.entries.lemma_contains_known(k);
                }
            }
            lemma_relocate_wf(s_det, *self, k, from_path@, to_path@);
        }
        let ghost s_rel = *self;
        match npk_checked {
            Option::Some(npk) => {
                let attachable = match self.entries.get(npk) {
                    Option::Some(pe) => pe.is_dir(),
                    Option::None => false,
                };
                if attachable {
                    let ghost before = *self;
                    proof {
                        self.entries.lemma_len_bound();
                    }
                    let pe = self.entries.take(npk);
                    match pe {
                        Entry::Dir { name: dn, parent: dp, children, wd: dwd } => {
                            let mut children = children;
                            children.set(new_name, k);
                            self.entries.put_back(
                                npk,
                                Entry::Dir { name: dn, parent: dp, children, wd: dwd },
                            );
                            proof {
                                assert(self.entries_map() =~= before.entries_map().insert(
                                    npk,
                                    self.entries_map()[npk],
                                ));
                                assert forall|q: EntryKey| before.key_known_spec(q) implies
                                    self.key_known_spec(q) by {
                                    if q == npk {
                                        self.entries.lemma_contains_known(npk);
                                    }
                                }
                                assert(self.key_known_spec(k)) by {
                                    self.entries.lemma_contains_known(k);
                                }
                                lemma_attach_wf(before, *self, npk, leaf_of(to_path@), k);
                            }
                        },
                        pe => {
                            proof {
                                assert(false);
                            }
                            self.entries.put_back(npk, pe);
                        },
                    }
                }
            },
            Option::None => {},
        }
        proof {
            assert(s_con.entries_map().dom() =~= self.entries_map().dom());
            lemma_emits_from_deletes(pre, s_con, *self, old(events)@, events@);
        }
        Result::Ok(())
    }

    /// Climbs to the nearest existing ancestor of a path: a configured
    /// root may be missing at startup. The result is the path itself or
    /// one of its ancestors, and it exists whenever any of them does.
    fn climb_to_existing(snap: &FsSnapshot, start: &String) -> (r: String)
        requires
            snap.inv(),
            path_valid(start@),
        ensures
            path_valid(r@),
            resolve_spec(snap@, start@, MAX_LINK_FOLLOW as nat) is Some ==> r@ == start@,
            ancestor_chain(start@).contains(r@),
            (exists|i: int| 0 <= i < ancestor_chain(start@).len() && resolve_spec(
                snap@,
                #[trigger] ancestor_chain(start@)[i],
                MAX_LINK_FOLLOW as nat,
            ) is Some) ==> resolve_spec(snap@, r@, MAX_LINK_FOLLOW as nat) is Some,
    {
        let mut cur: String = start.clone();
        let ghost mut visited: Seq<Seq<char>> = Seq::empty();
        proof {
            assert(ancestor_chain(start@) =~= visited + ancestor_chain(cur@));
        }
        loop
            invariant
                snap.inv(),
                path_valid(cur@),
                resolve_spec(snap@, start@, MAX_LINK_FOLLOW as nat) is Some ==> cur@ == start@,
                ancestor_chain(start@) == visited + ancestor_chain(cur@),
                forall|w: int| 0 <= w < visited.len() ==> resolve_spec(
                    snap@,
                    #[trigger] visited[w],
                    MAX_LINK_FOLLOW as nat,
                ) is None,
            decreases cur@.len(),
        {
            proof {
                assert(ancestor_chain(cur@)[0] == cur@);
                assert(ancestor_chain(start@)[visited.len() as int] == cur@);
            }
            if snap.path_exists(cur.as_str()) {
                return cur;
            }
            match parent(cur.as_str()) {
                Option::Some(p) => {
                    proof {
                        visited = visited.push(cur@);
                        assert(ancestor_chain(start@) =~= visited + ancestor_chain(p@)) by {
                            assert(ancestor_chain(cur@) == seq![cur@] + ancestor_chain(
                                parent_of(cur@),
                            ));
                            assert(visited.drop_last() + (seq![cur@] + ancestor_chain(p@)) =~= (
                            visited.drop_last().push(cur@)) + ancestor_chain(p@));
                        }
                    }
                    cur = p;
                },
                Option::None => {
                    proof {
                        assert(cur@ == root_seq());
                        assert(ancestor_chain(cur@) =~= seq![cur@]);
                        if exists|i: int| 0 <= i < ancestor_chain(start@).len() && resolve_spec(
                            snap@,
                            #[trigger] ancestor_chain(start@)[i],
                            MAX_LINK_FOLLOW as nat,
                        ) is Some {
                            let i = choose|i: int|
                                0 <= i < ancestor_chain(start@).len() && resolve_spec(
                                    snap@,
                                    #[trigger] ancestor_chain(start@)[i],
                                    MAX_LINK_FOLLOW as nat,
                                ) is Some;
                            if i < visited.len() {
                                assert(ancestor_chain(start@)[i] == visited[i]);
                            } else {
                                assert(ancestor_chain(start@)[i] == cur@);
                            }
                            assert(false);
                        }
                    }
                    return cur;
                },
            }
        }
    }

    /// Constructs the cache over the configured roots: derives the
    /// initial-dir rule scope, walks each root (climbing to the nearest
    /// existing ancestor when the root itself is missing), inserts what
    /// passes, and buffers exactly one `Initialize` event for every entry
    /// born in this bootstrap — and for no other key. A root the snapshot
    /// shows as a directory, that the derived rules admit and that nothing
    /// blocks attaching, is tracked afterwards.
    pub fn new(initial_dirs: Vec<String>, rules: Rules, snap: &FsSnapshot) -> (r: FileSystem)
        requires
            snap.inv(),
            forall|i: int| 0 <= i < initial_dirs@.len() ==> path_valid(
                (#[trigger] initial_dirs@[i])@,
            ),
        ensures
            r.well_formed(),
            r.rules_spec() == rules,
            r.initial_dirs_spec() == initial_dirs@,
            forall|j: int| 0 <= j < r.initial_events_spec().len() ==> (
            #[trigger] r.initial_events_spec()[j]) is Initialize,
            forall|j: int| 0 <= j < r.initial_events_spec().len() ==> r.entries_map().contains_key(
                (#[trigger] r.initial_events_spec()[j]).key_spec(),
            ),
            forall|i: int, j: int| 0 <= i < j < r.initial_events_spec().len() ==> (
            #[trigger] r.initial_events_spec()[i]).key_spec() != (
            #[trigger] r.initial_events_spec()[j]).key_spec(),
            forall|k: EntryKey| #[trigger] r.entries_map().contains_key(k) ==> exists|j: int|
                0 <= j < r.initial_events_spec().len() && (
                #[trigger] r.initial_events_spec()[j]).key_spec() == k,
            forall|i: int| 0 <= i < initial_dirs@.len() ==> ({
                let p = (#[trigger] initial_dirs@[i])@;
                (r.entries_len() < usize::MAX && snap@.contains_key(p) && (resolve_spec(
                    snap@,
                    p,
                    MAX_LINK_FOLLOW as nat,
                ) matches Option::Some(n) && n is Dir) && p != root_seq()
                    && r.initial_dir_rules_spec().passes_spec(p) && attach_refusal(r, p)
                    is None) ==> r.wd_index().contains_key(p)
            }),
            (initial_dirs@.len() == 1 && {
                let p = (initial_dirs@[0])@;
                &&& r.entries_len() < usize::MAX
                &&& snap@.contains_key(p)
                &&& !(snap@[p] is Symlink)
                &&& (resolve_spec(snap@, p, MAX_LINK_FOLLOW as nat) matches Option::Some(n) && n
                    is Dir)
                &&& p != root_seq()
                &&& r.initial_dir_rules_spec().passes_spec(p)
            }) ==> (forall|j: int|
                0 <= j < node_children(
                    resolve_spec(snap@, (initial_dirs@[0])@, MAX_LINK_FOLLOW as nat)->0,
                ).len() ==> ({
                    let p = (initial_dirs@[0])@;
                    let c = join_of(
                        p,
                        (#[trigger] node_children(
                            resolve_spec(snap@, (initial_dirs@[0])@, MAX_LINK_FOLLOW as nat)->0,
                        )[j])@,
                    );
                    (r.initial_dir_rules_spec().passes_spec(c) && (r.rules_spec().passes_spec(c)
                        || (resolve_spec(snap@, c, MAX_LINK_FOLLOW as nat) matches
                        Option::Some(n2) && n2 is Dir)) && snap@.contains_key(c) && resolve_spec(
                        snap@,
                        c,
                        MAX_LINK_FOLLOW as nat,
                    ) is Some) ==> r.wd_index().contains_key(c)
                })),
            r.initial_dir_rules_spec().exc() == Seq::<Matcher>::empty(),
            all_roots_ok(initial_dirs@) ==> r.initial_dir_rules_spec().inc().len()
                == roots_patterns(initial_dirs@).len() && (forall|w: int|
                0 <= w < r.initial_dir_rules_spec().inc().len() ==> ((
                #[trigger] r.initial_dir_rules_spec().inc()[w]) matches Matcher::Glob(g) && g@
                    == roots_patterns(initial_dirs@)[w])),
    {
        let mut initial_dir_rules = Rules::new();
        let n = initial_dirs.len();
        let mut i: usize = 0;
        proof {
            assert(roots_patterns(initial_dirs@.take(0)).len() == 0);
        }
        while i < n
            invariant
                n == initial_dirs@.len(),
                0 <= i <= n,
                forall|w: int| 0 <= w < initial_dirs@.len() ==> path_valid(
                    (#[trigger] initial_dirs@[w])@,
                ),
                initial_dir_rules.exc() == Seq::<Matcher>::empty(),
                all_roots_ok(initial_dirs@) ==> initial_dir_rules.inc().len() == roots_patterns(
                    initial_dirs@.take(i as int),
                ).len() && (forall|w: int| 0 <= w < initial_dir_rules.inc().len() ==> ((
                #[trigger] initial_dir_rules.inc()[w]) matches Matcher::Glob(g) && g@
                    == roots_patterns(initial_dirs@.take(i as int))[w])),
            decreases n - i,
        {
            let ghost before = initial_dir_rules;
            // A pattern the glob engine refuses leaves that root's derived
            // scope partial; the remaining roots still get theirs.
            let compiled = append_rules(&mut initial_dir_rules, initial_dirs[i].as_str());
            proof {
                assert(initial_dir_rules.exc() =~= Seq::<Matcher>::empty());
                if all_roots_ok(initial_dirs@) {
                    assert(forall|j: int| 0 <= j < appended_patterns(
                        (initial_dirs@[i as int])@,
                    ).len() ==> crate::rule::glob_pattern_ok(#[trigger] appended_patterns(
                        (initial_dirs@[i as int])@,
                    )[j]));
                    assert(compiled is Ok);
                    assert(roots_patterns(initial_dirs@.take(i + 1)) == roots_patterns(
                        initial_dirs@.take(i as int),
                    ) + appended_patterns((initial_dirs@[i as int])@)) by {
                        assert(initial_dirs@.take(i + 1).drop_last() =~= initial_dirs@.take(
                            i as int,
                        ));
                        assert(initial_dirs@.take(i + 1).last() == initial_dirs@[i as int]);
                    }
                    let base = before.inc().len() as int;
                    assert forall|w: int| 0 <= w < initial_dir_rules.inc().len() implies ((
                    #[trigger] initial_dir_rules.inc()[w]) matches Matcher::Glob(g) && g@
                        == roots_patterns(initial_dirs@.take(i + 1))[w]) by {
                        if w < base {
                            assert(initial_dir_rules.inc()[w] == before.inc()[w]) by {
                                assert(before.inc() == initial_dir_rules.inc().take(base));
                            }
                            assert(roots_patterns(initial_dirs@.take(i + 1))[w]
                                == roots_patterns(initial_dirs@.take(i as int))[w]);
                        } else {
                            assert(roots_patterns(initial_dirs@.take(i + 1))[w]
                                == appended_patterns((initial_dirs@[i as int])@)[w - base]);
                        }
                    }
                }
            }
            match compiled {
                Result::Ok(_) => {},
                Result::Err(_) => {},
            }
            i += 1;
        }
        proof {
            assert(initial_dirs@.take(n as int) =~= initial_dirs@);
        }
        let mut fs = FileSystem {
            entries: Arena::new(),
            symlinks: AssocMap::new(),
            watch_descriptors: AssocMap::new(),
            master_rules: rules,
            initial_dirs,
            initial_dir_rules,
            initial_events: Vec::new(),
            watcher: Watcher::new(),
        };
        proof {
            assert(fs.well_formed()) by {
                assert(fs.watched_paths() =~= fs.wd_index().dom());
            }
        }
        let ghost fs0 = fs;
        let mut boot_events: Vec<Event> = Vec::new();
        proof {
            lemma_frame_refl(fs, boot_events@);
        }
        let m = fs.initial_dirs.len();
        let mut i: usize = 0;
        while i < m
            invariant
                fs.well_formed(),
                snap.inv(),
                m == fs.initial_dirs@.len(),
                0 <= i <= m,
                same_config(fs0, fs),
                preserves_entries(fs0, fs),
                new_events_ok(fs0, fs, Seq::<Event>::empty(), boot_events@),
                fs.initial_events@ == Seq::<Event>::empty(),
                fs0.entries_map() == Map::<EntryKey, Entry>::empty(),
                fs0.wd_index() == Map::<Seq<char>, Vec<EntryKey>>::empty(),
                fs0.entries_len() == 0,
                i == 0 ==> fs.wd_index() == fs0.wd_index() && fs.entries_map()
                    == fs0.entries_map() && fs.entries_len() == 0,
                same_config(fs0, fs) && fs0.initial_dir_rules_spec()
                    == fs.initial_dir_rules_spec() && fs0.rules_spec() == fs.rules_spec(),
                (m == 1 && i == 1 && {
                    let p = (fs.initial_dirs@[0])@;
                    &&& snap@.contains_key(p)
                    &&& !(snap@[p] is Symlink)
                    &&& (resolve_spec(snap@, p, MAX_LINK_FOLLOW as nat) matches Option::Some(n)
                        && n is Dir)
                    &&& p != root_seq()
                    &&& fs.initial_dir_rules_spec().passes_spec(p)
                }) ==> (fs.entries_len() >= usize::MAX || (forall|j: int|
                    0 <= j < node_children(
                        resolve_spec(snap@, (fs.initial_dirs@[0])@, MAX_LINK_FOLLOW as nat)->0,
                    ).len() ==> ({
                        let p = (fs.initial_dirs@[0])@;
                        let c = join_of(
                            p,
                            (#[trigger] node_children(
                                resolve_spec(
                                    snap@,
                                    (fs.initial_dirs@[0])@,
                                    MAX_LINK_FOLLOW as nat,
                                )->0,
                            )[j])@,
                        );
                        (fs.initial_dir_rules_spec().passes_spec(c) && (fs.rules_spec().passes_spec(c)
                            || (resolve_spec(snap@, c, MAX_LINK_FOLLOW as nat) matches
                            Option::Some(n2) && n2 is Dir)) && snap@.contains_key(c)
                            && resolve_spec(snap@, c, MAX_LINK_FOLLOW as nat) is Some)
                            ==> fs.wd_index().contains_key(c)
                    }))),
                forall|w: int| 0 <= w < i ==> root_outcome(
                    fs,
                    snap@,
                    (#[trigger] fs.initial_dirs@[w])@,
                ),
            decreases m - i,
        {
            let root_i: String = fs.initial_dirs[i].clone();
            let path_cpy = FileSystem::climb_to_existing(snap, &root_i);
            let ghost mid = fs;
            let ghost em = boot_events@;
            let boot_result = fs.insert(&path_cpy, snap, &mut boot_events);
            proof {
                lemma_preserves_trans(fs0, mid, fs);
                lemma_new_events_compose(fs0, mid, fs, Seq::<Event>::empty(), em, boot_events@);
                assert forall|w: int| 0 <= w < i + 1 implies root_outcome(
                    fs,
                    snap@,
                    (#[trigger] fs.initial_dirs@[w])@,
                ) by {
                    let p = (fs.initial_dirs@[w])@;
                    if snap@.contains_key(p) && (resolve_spec(snap@, p, MAX_LINK_FOLLOW as nat)
                        matches Option::Some(n) && n is Dir) && p != root_seq()
                        && fs.initial_dir_rules_spec().passes_spec(p) {
                        if w < i {
                            if mid.wd_index().contains_key(p) {
                                assert(fs.wd_index().contains_key(p));
                            } else if attach_refusal(mid, p) is Some {
                                lemma_refusal_some_preserved(mid, fs, p);
                            }
                        } else {
                            assert(p == path_cpy@);
                            if mid.entries_len() >= usize::MAX {
                            } else if attach_refusal(mid, p) is Some {
                                lemma_refusal_some_preserved(mid, fs, p);
                            } else {
                                assert(mid.initial_dir_target_spec(p, snap@));
                                assert(mid.passes_spec(p, snap@));
                                assert(fs.wd_index().contains_key(p));
                            }
                        }
                    }
                }
            }
            proof {
                let p = (fs.initial_dirs@[0])@;
                if m == 1 && i == 0 && snap@.contains_key(p) && !(snap@[p] is Symlink) && (
                resolve_spec(snap@, p, MAX_LINK_FOLLOW as nat) matches Option::Some(nn) && nn
                    is Dir) && p != root_seq() && fs.initial_dir_rules_spec().passes_spec(p) {
                    assert(path_cpy@ == p);
                    if fs.entries_len() < usize::MAX {
                        assert(!mid.wd_index().contains_key(p));
                        assert(attach_refusal(mid, p) is None);
                        assert(mid.passes_spec(p, snap@)) by {
                            assert(mid.initial_dir_target_spec(p, snap@));
                        }
                        assert forall|j: int|
                            0 <= j < node_children(
                                resolve_spec(snap@, (fs.initial_dirs@[0])@, MAX_LINK_FOLLOW as nat)->0,
                            ).len() implies ({
                            let c = join_of(
                                p,
                                (#[trigger] node_children(
                                    resolve_spec(
                                        snap@,
                                        (fs.initial_dirs@[0])@,
                                        MAX_LINK_FOLLOW as nat,
                                    )->0,
                                )[j])@,
                            );
                            (fs.initial_dir_rules_spec().passes_spec(c)
                                && (fs.rules_spec().passes_spec(c) || (resolve_spec(
                                snap@,
                                c,
                                MAX_LINK_FOLLOW as nat,
                            ) matches Option::Some(n2) && n2 is Dir)) && snap@.contains_key(c)
                                && resolve_spec(snap@, c, MAX_LINK_FOLLOW as nat) is Some)
                                ==> fs.wd_index().contains_key(c)
                        }) by {
                            let c = join_of(
                                p,
                                (node_children(
                                    resolve_spec(snap@, p, MAX_LINK_FOLLOW as nat)->0,
                                )[j])@,
                            );
                            if fs.initial_dir_rules_spec().passes_spec(c) && (
                            fs.rules_spec().passes_spec(c) || (resolve_spec(
                                snap@,
                                c,
                                MAX_LINK_FOLLOW as nat,
                            ) matches Option::Some(n2) && n2 is Dir)) && snap@.contains_key(c)
                                && resolve_spec(snap@, c, MAX_LINK_FOLLOW as nat) is Some {
                                assert(mid.passes_spec(c, snap@)) by {
                                    assert(mid.initial_dir_target_spec(c, snap@));
                                }
                            }
                        }
                    }
                }
            }
            match boot_result {
                Result::Ok(_) => {},
                Result::Err(_) => {},
            }
            i += 1;
        }
        let ghost fsb = fs;
        let nb = boot_events.len();
        let mut j: usize = 0;
        while j < nb
            invariant
                fs.well_formed(),
                nb == boot_events@.len(),
                0 <= j <= nb,
                fs.entries_map() == fsb.entries_map(),
                fs.wd_index() == fsb.wd_index(),
                fs.entries_len() == fsb.entries_len(),
                fs.initial_dir_rules_spec() == fsb.initial_dir_rules_spec(),
                forall|w: int| 0 <= w < fsb.initial_dirs_spec().len() ==> root_outcome(
                    fsb,
                    snap@,
                    (#[trigger] fsb.initial_dirs_spec()[w])@,
                ),
                fs.rules_spec() == fsb.rules_spec(),
                fs.initial_dirs_spec() == fsb.initial_dirs_spec(),
                new_events_ok(fs0, fsb, Seq::<Event>::empty(), boot_events@),
                fs0.entries_map() == Map::<EntryKey, Entry>::empty(),
                fs.initial_events@.len() == j,
                forall|w: int| 0 <= w < j ==> (#[trigger] fs.initial_events@[w]) is Initialize
                    && fs.initial_events@[w].key_spec() == boot_events@[w].key_spec(),
            decreases nb - j,
        {
            let ev = boot_events[j];
            match ev {
                Event::New(k) => {
                    fs.initial_events.push(Event::Initialize(k));
                },
                _ => {
                    proof {
                        assert(false);
                    }
                },
            }
            j += 1;
        }
        proof {
            assert forall|k: EntryKey| #[trigger] fs.entries_map().contains_key(k) implies exists|
                j: int,
            |
                0 <= j < fs.initial_events@.len() && (#[trigger] fs.initial_events@[j]).key_spec()
                    == k by {
                assert(fsb.entries_map().contains_key(k));
                let w = choose|w: int| 0 <= w < boot_events@.len() && (
                #[trigger] boot_events@[w]).key_spec() == k;
                assert(fs.initial_events@[w].key_spec() == k);
            }
            assert forall|w: int| 0 <= w < fs.initial_dirs_spec().len() implies ({
                let p = (#[trigger] fs.initial_dirs_spec()[w])@;
                (fs.entries_len() < usize::MAX && snap@.contains_key(p) && (resolve_spec(
                    snap@,
                    p,
                    MAX_LINK_FOLLOW as nat,
                ) matches Option::Some(n) && n is Dir) && p != root_seq()
                    && fs.initial_dir_rules_spec().passes_spec(p) && attach_refusal(fs, p)
                    is None) ==> fs.wd_index().contains_key(p)
            }) by {
                let p = (fs.initial_dirs_spec()[w])@;
                assert(root_outcome(fsb, snap@, p));
            }
        }
        fs
    }

    /// Hands out the buffered bootstrap events: the `Initialize` block a
    /// consumer drains before any live event.
    pub fn take_initial_events(&mut self) -> (r: Vec<Event>)
        ensures
            r@ == old(self).initial_events_spec(),
            final(self).initial_events_spec() == Seq::<Event>::empty(),
            final(self).entries_map() == old(self).entries_map(),
            final(self).wd_index() == old(self).wd_index(),
            final(self).symlink_index() == old(self).symlink_index(),
            final(self).watched_paths() == old(self).watched_paths(),
            final(self).rules_spec() == old(self).rules_spec(),
            final(self).initial_dirs_spec() == old(self).initial_dirs_spec(),
            old(self).well_formed() ==> final(self).well_formed(),
    {
        let mut out: Vec<Event> = Vec::new();
        core::mem::swap(&mut out, &mut self.initial_events);
        proof {
            assert(self.initial_events_spec() =~= Seq::<Event>::empty());
            if old(self).well_formed() {
                assert(self.entries_map() == old(self).entries_map());
                assert(self.wd_index() == old(self).wd_index());
                assert(self.symlink_index() == old(self).symlink_index());
                assert(self.watched_paths() == old(self).watched_paths());
                assert(self.initial_dirs_spec() == old(self).initial_dirs_spec());
                assert(self.well_formed());
            }
        }
        out
    }

    /// Hands out the kernel watch and unwatch calls issued so far, for the
    /// embedding program to replay against the OS watcher, and clears the
    /// log.
    pub fn drain_watch_actions(&mut self) -> (r: Vec<WatchAction>)
        requires
            old(self).well_formed(),
        ensures
            final(self).well_formed(),
            r@ == old(self).pending_actions(),
            final(self).pending_actions() == Seq::<WatchAction>::empty(),
            final(self).entries_map() == old(self).entries_map(),
            final(self).wd_index() == old(self).wd_index(),
            final(self).symlink_index() == old(self).symlink_index(),
            final(self).watched_paths() == old(self).watched_paths(),
            same_config(*old(self), *final(self)),
    {
        let r = self.watcher.drain_pending();
        proof {
            assert(self.entries_map() == old(self).entries_map());
            assert(self.wd_index() == old(self).wd_index());
            assert(self.symlink_index() == old(self).symlink_index());
            assert(self.watched_paths() == old(self).watched_paths());
            assert(self.initial_dirs_spec() == old(self).initial_dirs_spec());
            assert(self.well_formed());
        }
        r
    }

    /// Handles one raw filesystem notification and appends the semantic
    /// events it gives rise to. Classification follows the source and
    /// destination paths: a rename whose source is tracked and passing and
    /// whose destination passes is a move; one with only a passing
    /// destination is an insertion; one with only a tracked, passing source
    /// is a removal; otherwise it is ignored. Non-fatal errors are
    /// swallowed so processing continues; a kernel queue overflow is fatal
    /// and surfaces as `WatchOverflow`.
    pub fn process(&mut self, watch_event: WatchEvent, snap: &FsSnapshot, events: &mut Vec<Event>)
        -> (r: Result<(), FsError>)
        requires
            old(self).well_formed(),
            snap.inv(),
            event_paths_valid(&watch_event),
        ensures
            final(self).well_formed(),
            same_config(*old(self), *final(self)),
            no_initialize_events(old(events)@, final(events)@),
            history_coherent(*old(self), old(events)@) ==> history_coherent(
                *final(self),
                final(events)@,
            ),
            r is Err <==> (watch_event matches WatchEvent::Error(we, _) && we is Overflow),
            r is Err ==> same_tree(*old(self), *final(self)) && final(events)@ == old(events)@
                && (r matches Result::Err(e) && e is WatchOverflow),
            match watch_event {
                WatchEvent::Create(p) => new_events_ok(
                    *old(self),
                    *final(self),
                    old(events)@,
                    final(events)@,
                ) && preserves_entries(*old(self), *final(self)) && (insert_clean(
                    *old(self),
                    p@,
                    snap@,
                ) ==> final(self).wd_index().contains_key(p@) && freshly_tracked(
                    *old(self),
                    *final(self),
                    p@,
                    snap@,
                )),
                WatchEvent::Write(p) => same_tree(*old(self), *final(self)) && preserves_entries(
                    *old(self),
                    *final(self),
                ) && (if old(self).wd_index().contains_key(p@) {
                    final(events)@ == old(events)@ + Seq::new(
                        old(self).wd_index()[p@]@.len(),
                        |i: int| Event::Write(old(self).wd_index()[p@]@[i]),
                    )
                } else {
                    final(events)@ == old(events)@
                }),
                WatchEvent::Remove(p) => delete_events_ok(
                    *old(self),
                    *final(self),
                    old(events)@,
                    final(events)@,
                ) && shrinks_entries(*old(self), *final(self)) && (!old(self).wd_index().contains_key(p@) ==> same_tree(
                    *old(self),
                    *final(self),
                ) && final(events)@ == old(events)@) && ((old(self).wd_index().contains_key(p@)
                    && is_initial_dir(*old(self), p@)) ==> same_tree(*old(self), *final(self))
                    && final(events)@ == old(events)@) && ((old(self).wd_index().contains_key(p@)
                    && !is_initial_dir(*old(self), p@) && detach_refusal(*old(self), p@) is None)
                    ==> !final(self).entries_map().contains_key(old(self).wd_index()[p@]@[0]))
                    && (old(self).wd_index().contains_key(p@) ==> narrow_removal(
                    *old(self),
                    *final(self),
                    old(self).wd_index()[p@]@[0],
                    snap@,
                )),
                WatchEvent::Rename(f, t) => {
                    let from_ok = old(self).wd_index().contains_key(f@) && old(self).passes_spec(
                        f@,
                        snap@,
                    );
                    let to_ok = old(self).passes_spec(t@, snap@);
                    &&& ((from_ok && to_ok && f@ != t@ && t@ != root_seq() && !old(self).wd_index().contains_key(t@) && rename_refusal(*old(self), f@, t@) is None)
                        ==> ({
                        let k = old(self).wd_index()[f@]@[0];
                        &&& final(self).wd_index().contains_key(t@)
                        &&& final(self).wd_index()[t@]@ == seq![k]
                        &&& final(self).entries_map().contains_key(k)
                        &&& final(self).entries_map()[k].wd_spec() == t@
                        &&& final(self).entries_map()[k].name_spec() == leaf_of(t@)
                        &&& !(final(self).wd_index().contains_key(f@) && final(self).wd_index()[
                            f@
                        ]@.contains(k))
                        &&& (old(self).wd_index()[f@]@.len() == 1 ==> !final(self).wd_index().contains_key(f@))
                    }))
                    &&& ((!from_ok && to_ok) ==> new_events_ok(
                        *old(self),
                        *final(self),
                        old(events)@,
                        final(events)@,
                    ) && preserves_entries(*old(self), *final(self)) && (insert_clean(
                        *old(self),
                        t@,
                        snap@,
                    ) ==> final(self).wd_index().contains_key(t@) && freshly_tracked(
                        *old(self),
                        *final(self),
                        t@,
                        snap@,
                    )))
                    &&& ((from_ok && !to_ok) ==> delete_events_ok(
                        *old(self),
                        *final(self),
                        old(events)@,
                        final(events)@,
                    ) && shrinks_entries(*old(self), *final(self)) && (old(self).wd_index().contains_key(f@) ==> narrow_removal(
                        *old(self),
                        *final(self),
                        old(self).wd_index()[f@]@[0],
                        snap@,
                    )) && ((!is_initial_dir(
                        *old(self),
                        f@,
                    ) && detach_refusal(*old(self), f@)
                        is None) ==> !final(self).entries_map().contains_key(old(self).wd_index()[
                        f@
                    ]@[0])))
                    &&& ((!from_ok && !to_ok) ==> same_tree(*old(self), *final(self)) && final(events)@ == old(events)@)
                },
                WatchEvent::Rescan => only_tree_events(old(events)@, final(events)@) && (({
                    &&& old(self).initial_dirs_spec().len() == 1
                    &&& old(self).wd_index().contains_key((old(self).initial_dirs_spec()[0])@)
                    &&& old(self).entries_map()[old(self).wd_index()[(old(self).initial_dirs_spec()[0])@]@[0]] is Dir
                }) ==> (forall|m: Seq<char>| #[trigger] old(self).entries_map()[old(self).wd_index()[(old(self).initial_dirs_spec()[0])@]@[0]].children_spec().contains_key(m) ==> !final(self).entries_map().contains_key(
                    old(self).entries_map()[old(self).wd_index()[(old(self).initial_dirs_spec()[0])@]@[0]].children_spec()[m],
                ))),
                WatchEvent::Error(_, _) => r is Ok ==> same_tree(*old(self), *final(self))
                    && final(events)@ == old(events)@,
            },
    {
        let ghost pre = *old(self);
        match watch_event {
            WatchEvent::Create(wd) => {
                let outcome = self.process_create(&wd, snap, events);
                proof {
                    lemma_no_init_of_news(pre, *self, old(events)@, events@);
                    if history_coherent(pre, old(events)@) {
                        lemma_history_new_round(pre, *self, old(events)@, events@);
                    }
                }
                match outcome {
                    Result::Ok(()) => Result::Ok(()),
                    Result::Err(_) => Result::Ok(()),
                }
            },
            WatchEvent::Write(wd) => {
                let outcome = self.process_modify(wd.as_str(), events);
                proof {
                    lemma_frame_refl(*self, events@);
                    assert(no_initialize_events(old(events)@, events@)) by {
                        assert(old(events)@ =~= events@.take(old(events)@.len() as int));
                    }
                    if history_coherent(pre, old(events)@) {
                        assert(forall|j: int| old(events)@.len() <= j < events@.len() ==> (
                        #[trigger] events@[j]) is Write);
                        lemma_history_write_round(pre, *self, old(events)@, events@);
                    }
                }
                match outcome {
                    Result::Ok(()) => Result::Ok(()),
                    Result::Err(_) => Result::Ok(()),
                }
            },
            WatchEvent::Remove(wd) => {
                let outcome = self.process_delete(&wd, snap, events);
                proof {
                    lemma_no_init_of_deletes(pre, *self, old(events)@, events@);
                    if history_coherent(pre, old(events)@) {
                        lemma_history_delete_round(pre, *self, old(events)@, events@);
                    }
                }
                match outcome {
                    Result::Ok(()) => Result::Ok(()),
                    Result::Err(_) => Result::Ok(()),
                }
            },
            WatchEvent::Rename(from_wd, to_wd) => {
                let from_ok = match self.get_first_entry(from_wd.as_str()) {
                    Result::Ok(k) => self.entry_path_passes(k, snap),
                    Result::Err(_) => false,
                };
                let to_ok = self.passes(to_wd.as_str(), snap);
                proof {
                    if from_ok {
                        assert(pre.entries_map()[pre.wd_index()[from_wd@]@[0]].wd_spec()
                            == from_wd@);
                    }
                }
                if to_ok && from_ok {
                    let outcome = self.process_rename(&from_wd, &to_wd, snap, events);
                    proof {
                        lemma_no_init_of_emits(pre, *self, old(events)@, events@);
                        if history_coherent(pre, old(events)@) {
                            lemma_history_delete_round(pre, *self, old(events)@, events@);
                        }
                    }
                    match outcome {
                        Result::Ok(()) => Result::Ok(()),
                        Result::Err(_) => Result::Ok(()),
                    }
                } else if to_ok {
                    let outcome = self.process_create(&to_wd, snap, events);
                    proof {
                        lemma_no_init_of_news(pre, *self, old(events)@, events@);
                        if history_coherent(pre, old(events)@) {
                            lemma_history_new_round(pre, *self, old(events)@, events@);
                        }
                    }
                    match outcome {
                        Result::Ok(()) => Result::Ok(()),
                        Result::Err(_) => Result::Ok(()),
                    }
                } else if from_ok {
                    let outcome = self.process_delete(&from_wd, snap, events);
                    proof {
                        lemma_no_init_of_deletes(pre, *self, old(events)@, events@);
                        if history_coherent(pre, old(events)@) {
                            lemma_history_delete_round(pre, *self, old(events)@, events@);
                        }
                    }
                    match outcome {
                        Result::Ok(()) => Result::Ok(()),
                        Result::Err(_) => Result::Ok(()),
                    }
                } else {
                    // Most likely the parent was removed and dropped the
                    // child watches with it; the matching events are
                    // already queued up.
                    proof {
                        lemma_frame_refl(*self, events@);
                        assert(no_initialize_events(old(events)@, events@)) by {
                            assert(old(events)@ =~= events@.take(old(events)@.len() as int));
                        }
                        if history_coherent(pre, old(events)@) {
                            lemma_history_write_round(pre, *self, old(events)@, events@);
                        }
                    }
                    Result::Ok(())
                }
            },
            WatchEvent::Rescan => {
                let outcome = self.rescan(snap, events);
                match outcome {
                    Result::Ok(()) => Result::Ok(()),
                    Result::Err(_) => Result::Ok(()),
                }
            },
            WatchEvent::Error(e, _path) => {
                proof {
                    lemma_frame_refl(*self, events@);
                    assert(no_initialize_events(old(events)@, events@)) by {
                        assert(old(events)@ =~= events@.take(old(events)@.len() as int));
                    }
                    if history_coherent(pre, old(events)@) {
                        lemma_history_write_round(pre, *self, old(events)@, events@);
                    }
                }
                match e {
                    WatchError::Overflow => Result::Err(FsError::WatchOverflow),
                    _ => Result::Ok(()),
                }
            },
        }
    }

    /// Rebuilds after the adapter lost state: each root's subtree is
    /// dropped and re-inserted from the snapshot. The roots themselves
    /// survive.
    fn rescan(&mut self, snap: &FsSnapshot, events: &mut Vec<Event>) -> (r: Result<(), FsError>)
        requires
            old(self).well_formed(),
            snap.inv(),
        ensures
            final(self).well_formed(),
            same_config(*old(self), *final(self)),
            no_initialize_events(old(events)@, final(events)@),
            only_tree_events(old(events)@, final(events)@),
            history_coherent(*old(self), old(events)@) ==> history_coherent(
                *final(self),
                final(events)@,
            ),
            ({
                &&& old(self).initial_dirs_spec().len() == 1
                &&& old(self).wd_index().contains_key((old(self).initial_dirs_spec()[0])@)
                &&& old(self).entries_map()[old(self).wd_index()[(old(self).initial_dirs_spec()[0])@]@[0]] is Dir
            }) ==> (forall|m: Seq<char>| #[trigger] old(self).entries_map()[old(self).wd_index()[(old(self).initial_dirs_spec()[0])@]@[0]].children_spec().contains_key(
                m,
            ) ==> !final(self).entries_map().contains_key(
                old(self).entries_map()[old(self).wd_index()[(old(self).initial_dirs_spec()[0])@]@[0]].children_spec()[m],
            )),
            r is Ok,
    {
        let ghost pre = *old(self);
        proof {
            lemma_frame_refl(*self, events@);
            assert(only_tree_events(events@, events@)) by {
                assert(events@ =~= events@.take(events@.len() as int));
            }
        }
        let n = self.initial_dirs.len();
        let mut i: usize = 0;
        while i < n
            invariant
                self.well_formed(),
                snap.inv(),
                same_config(pre, *self),
                n == self.initial_dirs@.len(),
                0 <= i <= n,
                no_initialize_events(old(events)@, events@),
                only_tree_events(old(events)@, events@),
                history_coherent(pre, old(events)@) ==> history_coherent(*self, events@),
                forall|q: EntryKey| #[trigger] pre.key_known_spec(q) ==> self.key_known_spec(q),
                i == 0 ==> *self == pre,
                ({
                    &&& n == 1
                    &&& i == 1
                    &&& pre.wd_index().contains_key((pre.initial_dirs_spec()[0])@)
                    &&& pre.entries_map()[pre.wd_index()[(pre.initial_dirs_spec()[0])@]@[0]]
                        is Dir
                }) ==> (forall|m: Seq<char>| #[trigger] pre.entries_map()[pre.wd_index()[(
                pre.initial_dirs_spec()[0])@]@[0]].children_spec().contains_key(m)
                    ==> !self.entries_map().contains_key(
                    pre.entries_map()[pre.wd_index()[(
                    pre.initial_dirs_spec()[0])@]@[0]].children_spec()[m],
                )),
            decreases n - i,
        {
            let root: String = self.initial_dirs[i].clone();
            let ghost stale = i == 0 && n == 1 && pre.wd_index().contains_key(root@)
                && pre.entries_map()[pre.wd_index()[root@]@[0]] is Dir;
            let ghost mut dead_keys: Seq<EntryKey> = Seq::empty();
            let ghost mut stale_children: Map<Seq<char>, EntryKey> = Map::empty();
            proof {
                assert(path_valid(root@));
            }
            match self.lookup(root.as_str()) {
                Option::Some(rk) => {
                    let child_keys: Vec<EntryKey> = match self.entries.get(rk) {
                        Option::Some(e) => match e {
                            Entry::Dir { children, .. } => {
                                proof {
                                    assert(self.entries_map()[rk].inv());
                                }
                                let keys = children.values();
                                proof {
                                    if stale {
                                        stale_children = children@;
                                        assert forall|w: int| 0 <= w < keys@.len() implies
                                            pre.key_known_spec(#[trigger] keys@[w]) by {
                                            crate::assoc::lemma_map_of_get(
                                                children.pairs_spec(),
                                                w,
                                            );
                                            let nm = children.pairs_spec()[w].0@;
                                            assert(children@.contains_key(nm));
                                            assert(pre.entries_map().contains_key(rk));
                                            assert(pre.entries_map()[
                                                rk
                                            ].children_spec().contains_key(nm));
                                            assert(pre.key_known_spec(
                                                pre.entries_map()[rk].children_spec()[nm],
                                            ));
                                        }
                                        assert forall|m: Seq<char>|
                                            #[trigger] children@.contains_key(m) implies exists|
                                            w: int,
                                        |
                                            0 <= w < keys@.len() && keys@[w] == children@[m] by {
                                            crate::assoc::lemma_map_of_contains(
                                                children.pairs_spec(),
                                                m,
                                            );
                                            let w = choose|w: int|
                                                0 <= w < children.pairs_spec().len() && (
                                                #[trigger] children.pairs_spec()[w]).0@ == m;
                                            crate::assoc::lemma_map_of_get(
                                                children.pairs_spec(),
                                                w,
                                            );
                                            assert(keys@[w] == children@[m]);
                                        }
                                    }
                                }
                                keys
                            },
                            _ => Vec::new(),
                        },
                        Option::None => Vec::new(),
                    };
                    proof {
                        dead_keys = child_keys@;
                        if stale {
                            assert(rk == pre.wd_index()[root@]@[0]);
                            assert(stale_children == pre.entries_map()[rk].children_spec());
                        }
                    }
                    // Unbind the stale children first, so the rebuild can
                    // attach fresh entries under the same names.
                    let root_is_dir = match self.entries.get(rk) {
                        Option::Some(e) => e.is_dir(),
                        Option::None => false,
                    };
                    if root_is_dir {
                        let ghost before = *self;
                        proof {
                            self.entries.lemma_len_bound();
                        }
                        let pe = self.entries.take(rk);
                        match pe {
                            Entry::Dir { name: dn, parent: dp, children: _, wd: dwd } => {
                                self.entries.put_back(
                                    rk,
                                    Entry::Dir {
                                        name: dn,
                                        parent: dp,
                                        children: AssocMap::new(),
                                        wd: dwd,
                                    },
                                );
                                proof {
                                    assert(self.entries_map() =~= before.entries_map().insert(
                                        rk,
                                        self.entries_map()[rk],
                                    ));
                                    assert forall|q: EntryKey| before.key_known_spec(q) implies
                                        self.key_known_spec(q) by {
                                        if q == rk {
                                            self.entries.lemma_contains_known(rk);
                                        }
                                    }
                                    lemma_detach_wf(before, *self, rk, Seq::empty());
                                    if history_coherent(pre, old(events)@) {
                                        assert forall|q: EntryKey|
                                            #[trigger] self.entries_map().contains_key(
                                            q,
                                        ) implies announce_count(events@, q) == 1
                                            && delete_count(events@, q) == 0 by {
                                            assert(before.entries_map().contains_key(q));
                                        }
                                        assert forall|q: EntryKey| !(
                                        #[trigger] self.key_known_spec(q)) implies
                                            announce_count(events@, q) == 0 && delete_count(
                                            events@,
                                            q,
                                        ) == 0 by {
                                            assert(!before.key_known_spec(q));
                                        }
                                        assert(history_coherent(*self, events@));
                                    }
                                }
                            },
                            pe => {
                                proof {
                                    assert(false);
                                }
                                self.entries.put_back(rk, pe);
                            },
                        }
                    }
                    let m = child_keys.len();
                    let mut j: usize = 0;
                    while j < m
                        invariant
                            self.well_formed(),
                            snap.inv(),
                            same_config(pre, *self),
                            m == child_keys@.len(),
                            0 <= j <= m,
                            no_initialize_events(old(events)@, events@),
                            only_tree_events(old(events)@, events@),
                            history_coherent(pre, old(events)@) ==> history_coherent(
                                *self,
                                events@,
                            ),
                            forall|q: EntryKey| #[trigger] pre.key_known_spec(q)
                                ==> self.key_known_spec(q),
                            forall|w: int| 0 <= w < j ==> !self.entries_map().contains_key(
                                #[trigger] child_keys@[w],
                            ),
                        decreases m - j,
                    {
                        let ghost em = events@;
                        let ghost mid = *self;
                        self.drop_entry(child_keys[j], snap, events);
                        proof {
                            lemma_no_init_of_deletes(mid, *self, em, events@);
                            lemma_no_init_trans(old(events)@, em, events@);
                            lemma_tree_events_of_deletes(mid, *self, em, events@);
                            lemma_tree_events_trans(old(events)@, em, events@);
                            if history_coherent(pre, old(events)@) {
                                lemma_history_delete_round(mid, *self, em, events@);
                            }
                            assert forall|w: int| 0 <= w < j + 1 implies
                                !self.entries_map().contains_key(#[trigger] child_keys@[w]) by {
                                if w < j {
                                    if self.entries_map().contains_key(child_keys@[w]) {
                                        assert(mid.entries_map().contains_key(child_keys@[w]));
                                    }
                                }
                            }
                        }
                        j += 1;
                    }
                },
                Option::None => {},
            }
            match snap.resolve(root.as_str(), MAX_LINK_FOLLOW) {
                Option::Some(node) => match node {
                    FsNode::Dir { children } => {
                        let names = clone_names(children);
                        proof {
                            crate::snapshot::lemma_resolve_in_map(
                                snap@,
                                root@,
                                MAX_LINK_FOLLOW as nat,
                            );
                            let q = choose|q: Seq<char>| #[trigger] snap@.contains_key(q)
                                && snap@[q] == resolve_spec(
                                snap@,
                                root@,
                                MAX_LINK_FOLLOW as nat,
                            )->0;
                            assert(snap@[q].node_valid());
                        }
                        let m = names.len();
                        let mut j: usize = 0;
                        while j < m
                            invariant
                                self.well_formed(),
                                snap.inv(),
                                same_config(pre, *self),
                                path_valid(root@),
                                m == names@.len(),
                                0 <= j <= m,
                                forall|w: int| 0 <= w < names@.len() ==> component_valid(
                                    (#[trigger] names@[w])@,
                                ),
                                no_initialize_events(old(events)@, events@),
                                only_tree_events(old(events)@, events@),
                                history_coherent(pre, old(events)@) ==> history_coherent(
                                    *self,
                                    events@,
                                ),
                                forall|q: EntryKey| #[trigger] pre.key_known_spec(q)
                                    ==> self.key_known_spec(q),
                                stale ==> (forall|w: int| 0 <= w < dead_keys.len() ==> pre.key_known_spec(
                                    #[trigger] dead_keys[w],
                                ) && !self.entries_map().contains_key(dead_keys[w])),
                            decreases m - j,
                        {
                            let child = join(root.as_str(), names[j].as_str());
                            let ghost em = events@;
                            let ghost mid = *self;
                            let child_result = self.insert(&child, snap, events);
                            proof {
                                lemma_no_init_of_news(mid, *self, em, events@);
                                lemma_no_init_trans(old(events)@, em, events@);
                                lemma_tree_events_of_news(mid, *self, em, events@);
                                lemma_tree_events_trans(old(events)@, em, events@);
                                if history_coherent(pre, old(events)@) {
                                    lemma_history_new_round(mid, *self, em, events@);
                                }
                                if stale {
                                    assert forall|w: int| 0 <= w < dead_keys.len() implies
                                        pre.key_known_spec(#[trigger] dead_keys[w])
                                            && !self.entries_map().contains_key(
                                            dead_keys[w],
                                        ) by {
                                        assert(mid.key_known_spec(dead_keys[w]));
                                        lemma_no_resurrection(
                                            mid,
                                            *self,
                                            em,
                                            events@,
                                            dead_keys[w],
                                        );
                                    }
                                }
                            }
                            match child_result {
                                Result::Ok(_) => {},
                                Result::Err(_) => {},
                            }
                            j += 1;
                        }
                    },
                    _ => {},
                },
                Option::None => {},
            }
            proof {
                if stale {
                    assert(root@ == (pre.initial_dirs_spec()[0])@);
                    let rk0 = pre.wd_index()[root@]@[0];
                    assert(stale_children == pre.entries_map()[rk0].children_spec());
                    assert forall|mm: Seq<char>| #[trigger] pre.entries_map()[
                        rk0
                    ].children_spec().contains_key(mm) implies !self.entries_map().contains_key(
                        pre.entries_map()[rk0].children_spec()[mm],
                    ) by {
                        assert(stale_children.contains_key(mm));
                        let w = choose|w: int|
                            0 <= w < dead_keys.len() && dead_keys[w] == stale_children[mm];
                        assert(!self.entries_map().contains_key(dead_keys[w]));
                    }
                }
            }
            i += 1;
        }
        Result::Ok(())
    }

    /// Inserts a new entry for the path when it passes the inclusion and
    /// exclusion rules; see the insertion algorithm's cases in the
    /// postcondition.
    pub fn insert(&mut self, path: &String, snap: &FsSnapshot, events: &mut Vec<Event>) -> (r:
        Result<Option<EntryKey>, FsError>)
        requires
            old(self).well_formed(),
            snap.inv(),
            path_valid(path@),
        ensures
            final(self).well_formed(),
            same_config(*old(self), *final(self)),
            preserves_entries(*old(self), *final(self)),
            bindings_tracked(*old(self), *final(self)),
            new_events_ok(*old(self), *final(self), old(events)@, final(events)@),
            forall|j: int| old(events)@.len() <= j < final(events)@.len() ==> final(self).passes_spec(
                final(self).entries_map()[(#[trigger] final(events)@[j]).key_spec()].wd_spec(),
                snap@,
            ),
            ({
                let p = path@;
                let pre = *old(self);
                &&& pre.passes_spec(p, snap@)
                &&& snap@.contains_key(p)
                &&& !(snap@[p] is Symlink)
                &&& (resolve_spec(snap@, p, MAX_LINK_FOLLOW as nat) matches Option::Some(n)
                    && !(n is Dir))
                &&& p != root_seq()
                &&& attach_refusal(pre, p) is None
                &&& pre.entries_len() < usize::MAX
            }) ==> final(events)@.len() == old(events)@.len() + 1 && old(events)@ == final(events)@.take(old(events)@.len() as int) && final(events)@.last() is New && (!old(self).wd_index().contains_key(path@) ==> final(self).wd_index()[path@]@ == seq![final(events)@.last().key_spec()]),
            ({
                let p = path@;
                let pre = *old(self);
                &&& pre.passes_spec(p, snap@)
                &&& snap@.contains_key(p)
                &&& !(snap@[p] is Symlink)
                &&& (resolve_spec(snap@, p, MAX_LINK_FOLLOW as nat) matches Option::Some(n) && n
                    is Dir)
                &&& p != root_seq()
                &&& attach_refusal(pre, p) is None
                &&& !pre.wd_index().contains_key(p)
                &&& final(self).entries_len() < usize::MAX
            }) ==> (forall|j: int|
                0 <= j < node_children(
                    resolve_spec(snap@, path@, MAX_LINK_FOLLOW as nat)->0,
                ).len() ==> ({
                    let c = join_of(
                        path@,
                        (#[trigger] node_children(
                            resolve_spec(snap@, path@, MAX_LINK_FOLLOW as nat)->0,
                        )[j])@,
                    );
                    (old(self).passes_spec(c, snap@) && snap@.contains_key(c) && resolve_spec(
                        snap@,
                        c,
                        MAX_LINK_FOLLOW as nat,
                    ) is Some) ==> final(self).wd_index().contains_key(c)
                })),
            ({
                let p = path@;
                let pre = *old(self);
                &&& pre.passes_spec(p, snap@)
                &&& snap@.contains_key(p)
                &&& resolve_spec(snap@, p, MAX_LINK_FOLLOW as nat) is Some
                &&& snap@[p] is Symlink
                &&& p != root_seq()
                &&& attach_refusal(pre, p) is None
                &&& target_insert_clean(pre, p, node_target(snap@[p]), snap@)
            }) ==> final(self).wd_index().contains_key(node_target(snap@[path@])) && (exists|
                k2: EntryKey,
            |
                #[trigger] inserted_kind_ok(
                    *final(self),
                    k2,
                    node_target(snap@[path@]),
                    snap@,
                )),
            old(self).entries_len() < usize::MAX ==> ({
                let p = path@;
                let pre = *old(self);
                if !pre.passes_spec(p, snap@) {
                    r == Result::<Option<EntryKey>, FsError>::Ok(Option::<EntryKey>::None)
                        && same_tree(pre, *final(self)) && final(events)@ == old(events)@
                } else if !snap@.contains_key(p) {
                    r == Result::<Option<EntryKey>, FsError>::Ok(Option::<EntryKey>::None)
                        && same_tree(pre, *final(self)) && final(events)@ == old(events)@
                } else if resolve_spec(snap@, p, MAX_LINK_FOLLOW as nat) is None {
                    (r matches Result::Err(FsError::PathNotValid(q)) && q@ == p) && same_tree(
                        pre,
                        *final(self),
                    ) && final(events)@ == old(events)@
                } else if p == root_seq() {
                    (r matches Result::Err(FsError::PathNotValid(q)) && q@ == p) && same_tree(
                        pre,
                        *final(self),
                    ) && final(events)@ == old(events)@
                } else if attach_refusal(pre, p) is Some {
                    (attach_refusal(pre, p) matches Option::Some(e) && r == Result::<
                        Option<EntryKey>,
                        FsError,
                    >::Err(e)) && same_tree(pre, *final(self)) && final(events)@ == old(events)@
                } else {
                    (r matches Result::Ok(ko) && ko matches Option::Some(k) && inserted_kind_ok(
                        *final(self),
                        k,
                        p,
                        snap@,
                    ) && !pre.entries_map().contains_key(k) && (pre.wd_index().contains_key(
                        parent_of(p),
                    ) ==> ({
                        let pk = pre.wd_index()[parent_of(p)]@[0];
                        final(self).entries_map()[pk].children_spec().contains_key(leaf_of(p))
                            && final(self).entries_map()[pk].children_spec()[leaf_of(p)] == k
                    })))
                }
            }),
    {
        self.insert_rec(path, snap, events, u64::MAX)
    }
}

/// The child component names a directory node lists, empty for the other
/// node kinds.
pub open spec fn node_children(n: FsNode) -> Seq<String> {
    match n {
        FsNode::Dir { children } => children@,
        _ => Seq::empty(),
    }
}

/// The target a symlink node records, empty for the other node kinds.
pub open spec fn node_target(n: FsNode) -> Seq<char> {
    match n {
        FsNode::Symlink { target } => target@,
        _ => Seq::empty(),
    }
}

/// The symlink's local rule scope is exactly the derived admission scope
/// for its target: no exclusions, and — whenever the glob engine accepts
/// every derived pattern — one glob inclusion per pattern, in order.
pub open spec fn derived_scope_ok(rules: Rules, target: Seq<char>) -> bool {
    &&& rules.exc() == Seq::<Matcher>::empty()
    &&& (forall|j: int| 0 <= j < appended_patterns(target).len()
        ==> crate::rule::glob_pattern_ok(#[trigger] appended_patterns(target)[j])) ==> ({
        &&& rules.inc().len() == appended_patterns(target).len()
        &&& forall|j: int| 0 <= j < rules.inc().len() ==> ((#[trigger] rules.inc()[j]) matches
            Matcher::Glob(g) && g@ == appended_patterns(target)[j])
    })
}

/// Whether the derived admission scope for a target matches the target
/// itself, as the glob engine answers it.
pub open spec fn scope_admits(t: Seq<char>) -> bool {
    exists|j: int| 0 <= j < appended_patterns(t).len() && crate::rule::glob_matches(
        #[trigger] appended_patterns(t)[j],
        t,
    )
}

/// Nothing stands between a symlink at `p` and the tracking of its target
/// `t`: the target is distinct from the symlink and not its parent, still
/// untracked, observed and resolvable, attachable, its derived scope
/// compiles, and it passes — on its own, through an older symlink, or
/// through the new symlink's derived scope.
pub open spec fn target_insert_clean(
    pre: FileSystem,
    p: Seq<char>,
    t: Seq<char>,
    snap: Map<Seq<char>, FsNode>,
) -> bool {
    &&& t != p
    &&& parent_of(t) != p
    &&& !pre.wd_index().contains_key(t)
    &&& pre.entries_len() + 1 < usize::MAX
    &&& snap.contains_key(t)
    &&& resolve_spec(snap, t, MAX_LINK_FOLLOW as nat) is Some
    &&& t != root_seq()
    &&& attach_refusal(pre, t) is None
    &&& (forall|j: int| 0 <= j < appended_patterns(t).len() ==> crate::rule::glob_pattern_ok(
        #[trigger] appended_patterns(t)[j],
    ))
    &&& (pre.initial_dir_target_spec(t, snap) || pre.symlink_grants_spec(t) || (scope_admits(t)
        && pre.rules_spec().included_spec(t)))
}

/// What a successful insertion leaves behind: the path is tracked by a
/// fresh entry whose name and kind agree with the snapshot; a symlink
/// carries its target and the derived scope admitting it.
pub open spec fn inserted_kind_ok(
    post: FileSystem,
    k: EntryKey,
    p: Seq<char>,
    snap: Map<Seq<char>, FsNode>,
) -> bool {
    &&& post.entries_map().contains_key(k)
    &&& post.entries_map()[k].wd_spec() == p
    &&& post.entries_map()[k].name_spec() == leaf_of(p)
    &&& post.wd_index().contains_key(p)
    &&& post.wd_index()[p]@.contains(k)
    &&& (resolve_spec(snap, p, MAX_LINK_FOLLOW as nat) matches Option::Some(n) ==> (if snap[p]
        is Symlink {
        post.entries_map()[k] is Symlink && post.entries_map()[k].link_spec() == node_target(
            snap[p],
        ) && derived_scope_ok(
            symlink_rules_spec(post.entries_map()[k]),
            node_target(snap[p]),
        )
    } else if n is Dir {
        post.entries_map()[k] is Dir
    } else {
        post.entries_map()[k] is File
    }))
}

/// A state composed with itself satisfies the framing and event-delta
/// predicates.
proof fn lemma_frame_refl(fs: FileSystem, e: Seq<Event>)
    ensures
        preserves_entries(fs, fs),
        new_events_ok(fs, fs, e, e),
        delete_events_ok(fs, fs, e, e),
        emits_ok(fs, fs, e, e),
        same_tree(fs, fs),
        same_config(fs, fs),
        bindings_tracked(fs, fs),
{
    assert(e =~= e.take(e.len() as int));
}

/// Pushing one `New` event for a fresh key that the round added satisfies
/// the event-delta predicate.
proof fn lemma_single_new(
    pre: FileSystem,
    post: FileSystem,
    pre_ev: Seq<Event>,
    post_ev: Seq<Event>,
    k: EntryKey,
)
    requires
        post_ev == pre_ev.push(Event::New(k)),
        !pre.key_known_spec(k),
        post.entries_map().contains_key(k),
        post.entries_map().dom() == pre.entries_map().dom().insert(k),
    ensures
        new_events_ok(pre, post, pre_ev, post_ev),
{
    assert(pre_ev =~= post_ev.take(pre_ev.len() as int));
    assert(post_ev[pre_ev.len() as int] == Event::New(k));
    assert forall|q: EntryKey| #[trigger] post.entries_map().contains_key(q)
        && !pre.entries_map().contains_key(q) implies exists|j: int|
        pre_ev.len() <= j < post_ev.len() && (#[trigger] post_ev[j]).key_spec() == q by {
        assert(post.entries_map().dom().contains(q));
        assert(q == k);
        assert(post_ev[pre_ev.len() as int].key_spec() == q);
    }
}

/// Admission only grows while the tree only grows: what passed the rules
/// keeps passing, since the configured rules are untouched and symlink
/// grants survive insertions.
proof fn lemma_passes_monotone(a: FileSystem, b: FileSystem, p: Seq<char>, snap: Map<Seq<char>, FsNode>)
    requires
        preserves_entries(a, b),
        same_config(a, b),
        a.passes_spec(p, snap),
    ensures
        b.passes_spec(p, snap),
{
    if a.initial_dir_target_spec(p, snap) {
        assert(b.initial_dir_target_spec(p, snap));
    } else {
        let kg = choose|kg: EntryKey| key_grants(a, kg, p);
        assert(a.entries_map().contains_key(kg));
        assert(entry_shape_eq(a.entries_map()[kg], b.entries_map()[kg]));
        assert(key_grants(b, kg, p));
    }
}

/// The derived admission pattern texts of a root list, in order: each
/// root's subtree glob and ancestor chain, concatenated.
pub open spec fn roots_patterns(roots: Seq<String>) -> Seq<Seq<char>>
    decreases roots.len(),
{
    if roots.len() == 0 {
        Seq::empty()
    } else {
        roots_patterns(roots.drop_last()) + appended_patterns(roots.last()@)
    }
}

/// Whether the glob engine accepts every derived pattern of every root.
pub open spec fn all_roots_ok(roots: Seq<String>) -> bool {
    forall|i: int| 0 <= i < roots.len() ==> (forall|j: int|
        0 <= j < appended_patterns((#[trigger] roots[i])@).len()
            ==> crate::rule::glob_pattern_ok(#[trigger] appended_patterns(roots[i]@)[j]))
}

/// What bootstrap owes one configured root: if the snapshot shows it as a
/// directory, the derived initial-dir rules admit it, and the store has
/// room, the root is tracked — unless something blocks attaching it under
/// an already-tracked parent.
pub open spec fn root_outcome(fs: FileSystem, snap: Map<Seq<char>, FsNode>, p: Seq<char>) -> bool {
    (snap.contains_key(p) && (resolve_spec(snap, p, MAX_LINK_FOLLOW as nat) matches
        Option::Some(n) && n is Dir) && p != root_seq() && fs.initial_dir_rules_spec().passes_spec(
        p,
    )) ==> (fs.wd_index().contains_key(p) || attach_refusal(fs, p) is Some || fs.entries_len()
        >= usize::MAX)
}

/// What blocks an attach keeps blocking it while the tree only grows:
/// the blocking parent entry and its binding survive insertions, and the
/// first key under a path is stable.
proof fn lemma_refusal_some_preserved(a: FileSystem, b: FileSystem, p: Seq<char>)
    requires
        a.well_formed(),
        preserves_entries(a, b),
        attach_refusal(a, p) is Some,
    ensures
        attach_refusal(b, p) is Some,
{
    let pk = a.wd_index()[parent_of(p)]@[0];
    assert(a.wd_index().contains_key(parent_of(p)));
    assert(b.wd_index().contains_key(parent_of(p)));
    assert(a.wd_index()[parent_of(p)]@.len() > 0);
    assert(b.wd_index()[parent_of(p)]@[0] == pk);
    assert(a.entries_map().contains_key(pk));
    assert(entry_shape_eq(a.entries_map()[pk], b.entries_map()[pk]));
    if a.entries_map()[pk] is Dir {
        assert(a.entries_map()[pk].children_spec().contains_key(leaf_of(p)));
        assert(b.entries_map()[pk].children_spec().contains_key(leaf_of(p)));
    }
}

/// Some fresh entry now tracks the path, of the kind the snapshot shows.
pub open spec fn freshly_tracked(
    pre: FileSystem,
    post: FileSystem,
    p: Seq<char>,
    snap: Map<Seq<char>, FsNode>,
) -> bool {
    exists|k: EntryKey| !pre.entries_map().contains_key(k) && #[trigger] inserted_kind_ok(
        post,
        k,
        p,
        snap,
    )
}

/// Composing two insertion rounds keeps the event-delta guarantees.
proof fn lemma_new_events_compose(
    a: FileSystem,
    b: FileSystem,
    c: FileSystem,
    ea: Seq<Event>,
    eb: Seq<Event>,
    ec: Seq<Event>,
)
    requires
        new_events_ok(a, b, ea, eb),
        new_events_ok(b, c, eb, ec),
        preserves_entries(a, b),
        preserves_entries(b, c),
    ensures
        new_events_ok(a, c, ea, ec),
{
    assert(ea =~= ec.take(ea.len() as int));
    assert(forall|j: int| 0 <= j < eb.len() ==> eb[j] == #[trigger] ec[j]);
    assert forall|j: int| ea.len() <= j < ec.len() implies ({
        let e = #[trigger] ec[j];
        e is New && !a.key_known_spec(e.key_spec()) && c.entries_map().contains_key(e.key_spec())
    }) by {
        if j < eb.len() {
            assert(eb[j] == ec[j]);
            assert(b.entries_map().contains_key(eb[j].key_spec()));
        }
    }
    assert forall|i: int, j: int| ea.len() <= i < j < ec.len() implies (
    #[trigger] ec[i]).key_spec() != (#[trigger] ec[j]).key_spec() by {
        if i < eb.len() && j >= eb.len() {
            assert(eb[i] == ec[i]);
            assert(b.entries_map().contains_key(ec[i].key_spec()));
            b.entries.lemma_contains_known(ec[i].key_spec());
            assert(!b.key_known_spec(ec[j].key_spec()));
        }
    }
    assert forall|k: EntryKey| #[trigger] c.entries_map().contains_key(k)
        && !a.entries_map().contains_key(k) implies exists|j: int|
        ea.len() <= j < ec.len() && (#[trigger] ec[j]).key_spec() == k by {
        if b.entries_map().contains_key(k) {
            let j = choose|j: int| ea.len() <= j < eb.len() && (#[trigger] eb[j]).key_spec() == k;
            assert(ec[j] == eb[j]);
        }
    }
}

/// Removal-style framing is transitive.
proof fn lemma_shrinks_trans(a: FileSystem, b: FileSystem, c: FileSystem)
    requires
        shrinks_entries(a, b),
        shrinks_entries(b, c),
    ensures
        shrinks_entries(a, c),
{
}

/// An untouched tree satisfies the removal framing predicates.
proof fn lemma_shrink_refl(fs: FileSystem, e: Seq<Event>)
    ensures
        shrinks_entries(fs, fs),
        delete_events_ok(fs, fs, e, e),
{
    assert(e =~= e.take(e.len() as int));
}

/// Composing two removal rounds keeps the event-delta guarantees.
proof fn lemma_delete_events_compose(
    a: FileSystem,
    b: FileSystem,
    c: FileSystem,
    ea: Seq<Event>,
    eb: Seq<Event>,
    ec: Seq<Event>,
)
    requires
        delete_events_ok(a, b, ea, eb),
        delete_events_ok(b, c, eb, ec),
        shrinks_entries(a, b),
        shrinks_entries(b, c),
    ensures
        delete_events_ok(a, c, ea, ec),
{
    assert(ea =~= ec.take(ea.len() as int));
    assert(forall|j: int| 0 <= j < eb.len() ==> eb[j] == #[trigger] ec[j]);
    assert forall|j: int| ea.len() <= j < ec.len() implies ({
        let e = #[trigger] ec[j];
        e is Delete && a.entries_map().contains_key(e.key_spec())
            && !c.entries_map().contains_key(e.key_spec()) && !(a.entries_map()[e.key_spec()]
            is Dir)
    }) by {
        if j < eb.len() {
            assert(eb[j] == ec[j]);
            assert(!b.entries_map().contains_key(ec[j].key_spec()));
            if c.entries_map().contains_key(ec[j].key_spec()) {
                assert(b.entries_map().contains_key(ec[j].key_spec()));
            }
        } else {
            assert(b.entries_map().contains_key(ec[j].key_spec()));
            assert(a.entries_map().contains_key(ec[j].key_spec()));
            assert(entry_shape_eq(
                a.entries_map()[ec[j].key_spec()],
                b.entries_map()[ec[j].key_spec()],
            ));
        }
    }
    assert forall|k: EntryKey| #[trigger] a.entries_map().contains_key(k)
        && !c.entries_map().contains_key(k) && !(a.entries_map()[k] is Dir) implies exists|j: int|
        ea.len() <= j < ec.len() && (#[trigger] ec[j]).key_spec() == k by {
        if b.entries_map().contains_key(k) {
            assert(entry_shape_eq(a.entries_map()[k], b.entries_map()[k]));
            let j = choose|j: int| eb.len() <= j < ec.len() && (#[trigger] ec[j]).key_spec() == k;
            assert(ea.len() <= j < ec.len());
        } else {
            let j = choose|j: int| ea.len() <= j < eb.len() && (#[trigger] eb[j]).key_spec() == k;
            assert(ec[j] == eb[j]);
        }
    }
}

/// Pushing one `Delete` event for a key the round removed satisfies the
/// event-delta predicate.
proof fn lemma_single_delete(
    pre: FileSystem,
    post: FileSystem,
    pre_ev: Seq<Event>,
    post_ev: Seq<Event>,
    k: EntryKey,
)
    requires
        post_ev == pre_ev.push(Event::Delete(k)),
        pre.entries_map().contains_key(k),
        !post.entries_map().contains_key(k),
        !(pre.entries_map()[k] is Dir),
        forall|q: EntryKey| q != k ==> (#[trigger] pre.entries_map().contains_key(q)
            == post.entries_map().contains_key(q)),
    ensures
        delete_events_ok(pre, post, pre_ev, post_ev),
{
    assert(pre_ev =~= post_ev.take(pre_ev.len() as int));
    assert(post_ev[pre_ev.len() as int] == Event::Delete(k));
    assert forall|q: EntryKey| #[trigger] pre.entries_map().contains_key(q)
        && !post.entries_map().contains_key(q) && !(pre.entries_map()[q] is Dir) implies exists|
        j: int,
    |
        pre_ev.len() <= j < post_ev.len() && (#[trigger] post_ev[j]).key_spec() == q by {
        assert(q == k);
        assert(post_ev[pre_ev.len() as int].key_spec() == q);
    }
}

/// The list with every occurrence of one key taken out.
fn remove_key(list: Vec<EntryKey>, k: EntryKey) -> (r: Vec<EntryKey>)
    ensures
        forall|j: int| 0 <= j < r@.len() ==> (#[trigger] r@[j]) != k && list@.contains(r@[j]),
        forall|x: EntryKey| list@.contains(x) && x != k ==> r@.contains(x),
{
    let n = list.len();
    let mut r: Vec<EntryKey> = Vec::new();
    let mut i: usize = 0;
    while i < n
        invariant
            n == list@.len(),
            0 <= i <= n,
            forall|j: int| 0 <= j < r@.len() ==> (#[trigger] r@[j]) != k && list@.contains(
                r@[j],
            ),
            forall|j: int| 0 <= j < i && list@[j] != k ==> r@.contains(#[trigger] list@[j]),
        decreases n - i,
    {
        let x = list[i];
        let ghost r0 = r@;
        if x.index != k.index || x.version != k.version {
            r.push(x);
            proof {
                assert(x != k);
                lemma_push_contains(r0, x);
                assert(r@ == r0.push(x));
                assert forall|j: int| 0 <= j < i + 1 && list@[j] != k implies r@.contains(
                    #[trigger] list@[j],
                ) by {
                    if j < i {
                        assert(r0.contains(list@[j]));
                    } else {
                        assert(list@[j] == x);
                    }
                }
            }
        } else {
            proof {
                assert(x == k);
            }
        }
        i += 1;
    }
    proof {
        assert forall|x: EntryKey| list@.contains(x) && x != k implies r@.contains(x) by {
            let j = choose|j: int| 0 <= j < list@.len() && list@[j] == x;
        }
    }
    r
}

/// Clones a list of component names.
fn clone_names(names: &Vec<String>) -> (r: Vec<String>)
    ensures
        r@.len() == names@.len(),
        forall|j: int| 0 <= j < r@.len() ==> (#[trigger] r@[j])@ == names@[j]@,
{
    let n = names.len();
    let mut r: Vec<String> = Vec::new();
    let mut i: usize = 0;
    while i < n
        invariant
            n == names@.len(),
            0 <= i <= n,
            r@.len() == i,
            forall|j: int| 0 <= j < i ==> (#[trigger] r@[j])@ == names@[j]@,
        decreases n - i,
    {
        r.push(names[i].clone());
        i += 1;
    }
    r
}

/// The glob suffix admitting everything below a directory.
pub open spec fn star_star() -> Seq<char> {
    seq!['*', '*']
}

/// A path followed by all of its ancestors, ending at the root.
pub open spec fn ancestor_chain(p: Seq<char>) -> Seq<Seq<char>>
    decreases p.len()
    when path_valid(p)
    via ancestor_chain_dec
{
    if p == root_seq() {
        seq![p]
    } else {
        seq![p] + ancestor_chain(parent_of(p))
    }
}

#[via_fn]
proof fn ancestor_chain_dec(p: Seq<char>) {
    if p != root_seq() {
        crate::paths::lemma_parent_of(p);
    }
}

/// The glob pattern texts that admit a root directory's subtree and the
/// chain of directories leading to it: the subtree glob first, then the
/// path and each of its ancestors.
pub open spec fn appended_patterns(p: Seq<char>) -> Seq<Seq<char>> {
    seq![join_of(p, star_star())] + ancestor_chain(p)
}

/// Adds inclusion rules admitting everything below `path` and the chain of
/// directories leading to it, stopping at the first pattern the glob engine
/// refuses.
pub fn append_rules(rules: &mut Rules, path: &str) -> (r: Result<(), RuleError>)
    requires
        path_valid(path@),
    ensures
        final(rules).exc() == old(rules).exc(),
        old(rules).inc() == final(rules).inc().take(old(rules).inc().len() as int),
        final(rules).inc().len() <= old(rules).inc().len() + appended_patterns(path@).len(),
        forall|j: int| old(rules).inc().len() <= j < final(rules).inc().len() ==> ((
        #[trigger] final(rules).inc()[j]) matches Matcher::Glob(g) && g@ == appended_patterns(
            path@,
        )[j - old(rules).inc().len()]),
        r is Ok <==> (forall|j: int| 0 <= j < appended_patterns(path@).len()
            ==> crate::rule::glob_pattern_ok(#[trigger] appended_patterns(path@)[j])),
        r is Ok ==> final(rules).inc().len() == old(rules).inc().len() + appended_patterns(
            path@,
        ).len(),
{
    proof {
        reveal_strlit("**");
        assert("**"@ =~= star_star());
    }
    let ghost base = rules.inc().len() as int;
    let ghost pats = appended_patterns(path@);
    let glob_path = join(path, "**");
    match GlobRule::new(glob_path.as_str()) {
        Result::Ok(g) => {
            rules.add_inclusion(Matcher::Glob(g));
            proof {
                assert(rules.inc().take(base) =~= old(rules).inc());
                assert(pats[0] == join_of(path@, star_star()));
            }
        },
        Result::Err(e) => {
            proof {
                assert(pats[0] == join_of(path@, star_star()));
                assert(rules.inc().take(base) =~= old(rules).inc());
            }
            return Result::Err(e);
        },
    }
    let mut cur: String = path.to_owned();
    let ghost mut visited: Seq<Seq<char>> = Seq::empty();
    proof {
        assert(ancestor_chain(path@) =~= visited + ancestor_chain(cur@));
    }
    loop
        invariant
            path_valid(cur@),
            pats == appended_patterns(path@),
            ancestor_chain(path@) == visited + ancestor_chain(cur@),
            rules.inc().len() == base + 1 + visited.len(),
            rules.exc() == old(rules).exc(),
            old(rules).inc() == rules.inc().take(base),
            base == old(rules).inc().len(),
            forall|j: int| base <= j < rules.inc().len() ==> ((#[trigger] rules.inc()[j]) matches
                Matcher::Glob(g) && g@ == pats[j - base]),
            forall|j: int| 0 <= j < 1 + visited.len() ==> crate::rule::glob_pattern_ok(
                #[trigger] pats[j],
            ),
        decreases cur@.len(),
    {
        proof {
            assert(ancestor_chain(cur@)[0] == cur@);
            assert(pats[1 + visited.len() as int] == cur@);
        }
        match GlobRule::new(cur.as_str()) {
            Result::Ok(g) => {
                rules.add_inclusion(Matcher::Glob(g));
                proof {
                    visited = visited.push(cur@);
                    assert(rules.inc().take(base) =~= old(rules).inc());
                }
            },
            Result::Err(e) => {
                proof {
                    assert(!crate::rule::glob_pattern_ok(pats[1 + visited.len() as int]));
                }
                return Result::Err(e);
            },
        }
        match parent(cur.as_str()) {
            Option::Some(p) => {
                proof {
                    assert(ancestor_chain(path@) =~= visited + ancestor_chain(p@)) by {
                        assert(ancestor_chain(cur@) == seq![cur@] + ancestor_chain(parent_of(
                            cur@,
                        )));
                        assert(visited.drop_last() + (seq![cur@] + ancestor_chain(p@)) =~= (
                        visited.drop_last().push(cur@)) + ancestor_chain(p@));
                    }
                }
                cur = p;
            },
            Option::None => {
                proof {
                    assert(cur@ == root_seq());
                    assert(ancestor_chain(cur@) =~= seq![cur@]);
                    assert(ancestor_chain(path@) =~= visited);
                    assert(pats.len() == 1 + visited.len());
                    assert forall|j: int| 0 <= j < pats.len() implies crate::rule::glob_pattern_ok(
                        #[trigger] pats[j],
                    ) by {}
                }
                return Result::Ok(());
            },
        }
    }
}

/// What stops an entry at `p` from being attached under its parent: the
/// parent's first tracked entry is no directory, or it already has a child
/// by that leaf name. `None` also covers an untracked parent, where the
/// entry is registered unattached.
pub open spec fn attach_refusal(fs: FileSystem, p: Seq<char>) -> Option<FsError> {
    if !fs.wd_index().contains_key(parent_of(p)) {
        Option::None
    } else {
        let pk = fs.wd_index()[parent_of(p)]@[0];
        if !(fs.entries_map()[pk] is Dir) {
            Option::Some(FsError::ParentNotValid)
        } else if fs.entries_map()[pk].children_spec().contains_key(leaf_of(p)) {
            Option::Some(FsError::Existing)
        } else {
            Option::None
        }
    }
}

/// While the tree only grows, every newly appearing child binding names a
/// tracked path: the binding's directory joined with the bound name is in
/// the watch-descriptor index.
pub open spec fn bindings_tracked(pre: FileSystem, post: FileSystem) -> bool {
    forall|d: EntryKey, m: Seq<char>|
        #![trigger post.entries_map()[d].children_spec().contains_key(m)]
        post.entries_map().contains_key(d) && post.entries_map()[d].children_spec().contains_key(
            m,
        ) && !(pre.entries_map().contains_key(d)
            && pre.entries_map()[d].children_spec().contains_key(m)) ==> post.wd_index().contains_key(
            join_of(post.entries_map()[d].wd_spec(), m),
        )
}

proof fn lemma_bindings_tracked_refl(fs: FileSystem)
    ensures
        bindings_tracked(fs, fs),
{
}

proof fn lemma_bindings_tracked_trans(a: FileSystem, b: FileSystem, c: FileSystem)
    requires
        bindings_tracked(a, b),
        bindings_tracked(b, c),
        preserves_entries(a, b),
        preserves_entries(b, c),
    ensures
        bindings_tracked(a, c),
{
    assert forall|d: EntryKey, m: Seq<char>|
        #![trigger c.entries_map()[d].children_spec().contains_key(m)]
        c.entries_map().contains_key(d) && c.entries_map()[d].children_spec().contains_key(m)
            && !(a.entries_map().contains_key(d)
            && a.entries_map()[d].children_spec().contains_key(m)) implies
        c.wd_index().contains_key(join_of(c.entries_map()[d].wd_spec(), m)) by {
        if b.entries_map().contains_key(d) && b.entries_map()[d].children_spec().contains_key(m) {
            assert(b.wd_index().contains_key(join_of(b.entries_map()[d].wd_spec(), m)));
            assert(entry_shape_eq(b.entries_map()[d], c.entries_map()[d]));
        }
    }
}

/// Insertion-style framing is transitive.
proof fn lemma_preserves_trans(a: FileSystem, b: FileSystem, c: FileSystem)
    requires
        preserves_entries(a, b),
        preserves_entries(b, c),
    ensures
        preserves_entries(a, c),
{
    assert forall|q: Seq<char>| #[trigger] a.wd_index().contains_key(q) implies
        c.wd_index().contains_key(q) && forall|x: EntryKey| a.wd_index()[q]@.contains(x)
            ==> #[trigger] c.wd_index()[q]@.contains(x) by {
        assert(b.wd_index().contains_key(q));
        assert forall|x: EntryKey| a.wd_index()[q]@.contains(x) implies #[trigger] c.wd_index()[
            q
        ]@.contains(x) by {
            assert(b.wd_index()[q]@.contains(x));
        }
    }
    assert forall|d: EntryKey, m: Seq<char>|
        #![trigger a.entries_map()[d].children_spec().contains_key(m)]
        a.entries_map().contains_key(d) && a.entries_map()[d].children_spec().contains_key(
            m,
        ) implies c.entries_map()[d].children_spec().contains_key(m) && c.entries_map()[
        d
    ].children_spec()[m] == a.entries_map()[d].children_spec()[m] by {
        assert(b.entries_map().contains_key(d));
        assert(b.entries_map()[d].children_spec().contains_key(m));
    }
}

/// After binding one more child into a directory whose shape is otherwise
/// unchanged, the cache stays well formed.
proof fn lemma_attach_wf(pre: FileSystem, post: FileSystem, pk: EntryKey, n: Seq<char>, k: EntryKey)
    requires
        pre.well_formed(),
        pre.entries_map().contains_key(pk),
        pre.entries_map()[pk] is Dir,
        pre.entries_map().contains_key(k),
        k != pk,
        pre.entries_map()[k].parent_spec() == Option::Some(pk),
        pre.entries_map()[k].name_spec() == n,
        post.entries.inv(),
        post.watch_descriptors.inv(),
        post.symlinks.inv(),
        post.watcher.inv(),
        post.entries_map() == pre.entries_map().insert(pk, post.entries_map()[pk]),
        post.entries_map().contains_key(pk),
        entry_shape_eq(pre.entries_map()[pk], post.entries_map()[pk]),
        post.entries_map()[pk].inv(),
        post.entries_map()[pk].children_spec() == pre.entries_map()[pk].children_spec().insert(
            n,
            k,
        ),
        post.wd_index() == pre.wd_index(),
        post.symlink_index() == pre.symlink_index(),
        post.watched_paths() == pre.watched_paths(),
        forall|q: EntryKey| pre.key_known_spec(q) ==> post.key_known_spec(q),
        post.key_known_spec(k),
        post.initial_dirs_spec() == pre.initial_dirs_spec(),
    ensures
        post.well_formed(),
{
    assert(post.entries_ok()) by {
        assert forall|q: EntryKey| #[trigger] post.entries_map().contains_key(q) implies ({
            let e = post.entries_map()[q];
            e.inv() && path_valid(e.wd_spec()) && (e is Symlink ==> path_valid(e.link_spec()))
        }) by {
            assert(pre.entries_map().contains_key(q));
            if q != pk {
                assert(post.entries_map()[q] == pre.entries_map()[q]);
            }
        }
    }
    assert(post.wd_index_sound()) by {
        assert forall|p: Seq<char>| #[trigger] post.wd_index().contains_key(p) implies ({
            let l = post.wd_index()[p]@;
            l.len() > 0 && forall|i: int| 0 <= i < l.len() ==> post.entries_map().contains_key(
                #[trigger] l[i],
            ) && post.entries_map()[l[i]].wd_spec() == p
        }) by {
            let l = post.wd_index()[p]@;
            assert(pre.wd_index().contains_key(p));
            assert forall|i: int| 0 <= i < l.len() implies post.entries_map().contains_key(
                #[trigger] l[i],
            ) && post.entries_map()[l[i]].wd_spec() == p by {
                assert(pre.entries_map().contains_key(l[i]));
                if l[i] != pk {
                    assert(post.entries_map()[l[i]] == pre.entries_map()[l[i]]);
                }
            }
        }
    }
    assert(post.wd_index_complete()) by {
        assert forall|q: EntryKey| #[trigger] post.entries_map().contains_key(q) implies ({
            let p = post.entries_map()[q].wd_spec();
            post.wd_index().contains_key(p) && post.wd_index()[p]@.contains(q)
        }) by {
            assert(pre.entries_map().contains_key(q));
            if q != pk {
                assert(post.entries_map()[q] == pre.entries_map()[q]);
            }
        }
    }
    assert(post.children_sound() && post.children_keys_known()) by {
        assert forall|d: EntryKey, m: Seq<char>|
            #![trigger post.entries_map()[d].children_spec().contains_key(m)]
            post.entries_map().contains_key(d)
                && post.entries_map()[d].children_spec().contains_key(m) implies ({
            let c = post.entries_map()[d].children_spec()[m];
            post.key_known_spec(c) && (post.entries_map().contains_key(c)
                ==> post.entries_map()[c].parent_spec() == Option::Some(d)
                && post.entries_map()[c].name_spec() == m)
        }) by {
            assert(pre.entries_map().contains_key(d));
            if d == pk && m == n {
                assert(post.entries_map()[d].children_spec()[m] == k);
                assert(post.entries_map()[k] == pre.entries_map()[k]);
            } else {
                let c = (if d == pk {
                    pre.entries_map()[pk].children_spec()[m]
                } else {
                    pre.entries_map()[d].children_spec()[m]
                });
                if d == pk {
                    assert(pre.entries_map()[pk].children_spec().contains_key(m));
                    assert(post.entries_map()[d].children_spec()[m] == c);
                } else {
                    assert(post.entries_map()[d] == pre.entries_map()[d]);
                    assert(pre.entries_map()[d].children_spec().contains_key(m));
                }
                assert(pre.key_known_spec(c));
                if post.entries_map().contains_key(c) {
                    assert(pre.entries_map().contains_key(c));
                    if c != pk {
                        assert(post.entries_map()[c] == pre.entries_map()[c]);
                    }
                }
            }
        }
    }
    assert(post.symlink_index_complete()) by {
        assert forall|q: EntryKey| #[trigger] post.entries_map().contains_key(q)
            && post.entries_map()[q] is Symlink implies ({
            let t = post.entries_map()[q].link_spec();
            post.symlink_index().contains_key(t) && post.symlink_index()[t]@.contains(q)
        }) by {
            assert(pre.entries_map().contains_key(q));
            if q != pk {
                assert(post.entries_map()[q] == pre.entries_map()[q]);
            } else {
                assert(pre.entries_map()[q] is Symlink);
            }
        }
    }
    assert(post.symlink_index_sound()) by {
        assert forall|t: Seq<char>| #[trigger] post.symlink_index().contains_key(t) implies ({
            let l = post.symlink_index()[t]@;
            l.len() > 0 && forall|i: int| 0 <= i < l.len() ==> post.entries_map().contains_key(
                #[trigger] l[i],
            ) && post.entries_map()[l[i]] is Symlink && post.entries_map()[l[i]].link_spec() == t
        }) by {
            let l = post.symlink_index()[t]@;
            assert(pre.symlink_index().contains_key(t));
            assert forall|i: int| 0 <= i < l.len() implies post.entries_map().contains_key(
                #[trigger] l[i],
            ) && post.entries_map()[l[i]] is Symlink && post.entries_map()[l[i]].link_spec()
                == t by {
                assert(pre.entries_map().contains_key(l[i]));
                assert(pre.entries_map()[l[i]] is Symlink);
                if l[i] != pk {
                    assert(post.entries_map()[l[i]] == pre.entries_map()[l[i]]);
                }
            }
        }
    }
    assert(post.watches_match()) by {
        assert(post.wd_index().dom() =~= pre.wd_index().dom());
    }
}

/// After unbinding one child from a directory whose shape is otherwise
/// unchanged, the cache stays well formed.
proof fn lemma_detach_wf(pre: FileSystem, post: FileSystem, pk: EntryKey, n: Seq<char>)
    requires
        pre.well_formed(),
        pre.entries_map().contains_key(pk),
        pre.entries_map()[pk] is Dir,
        post.entries.inv(),
        post.watch_descriptors.inv(),
        post.symlinks.inv(),
        post.watcher.inv(),
        post.entries_map() == pre.entries_map().insert(pk, post.entries_map()[pk]),
        post.entries_map().contains_key(pk),
        entry_shape_eq(pre.entries_map()[pk], post.entries_map()[pk]),
        post.entries_map()[pk].inv(),
        forall|m: Seq<char>| #[trigger] post.entries_map()[pk].children_spec().contains_key(m)
            ==> pre.entries_map()[pk].children_spec().contains_key(m) && post.entries_map()[
            pk
        ].children_spec()[m] == pre.entries_map()[pk].children_spec()[m],
        post.wd_index() == pre.wd_index(),
        post.symlink_index() == pre.symlink_index(),
        post.watched_paths() == pre.watched_paths(),
        forall|q: EntryKey| pre.key_known_spec(q) ==> post.key_known_spec(q),
        post.initial_dirs_spec() == pre.initial_dirs_spec(),
    ensures
        post.well_formed(),
        shrinks_entries(pre, post),
{
    assert(post.entries_ok()) by {
        assert forall|q: EntryKey| #[trigger] post.entries_map().contains_key(q) implies ({
            let e = post.entries_map()[q];
            e.inv() && path_valid(e.wd_spec()) && (e is Symlink ==> path_valid(e.link_spec()))
        }) by {
            assert(pre.entries_map().contains_key(q));
            if q != pk {
                assert(post.entries_map()[q] == pre.entries_map()[q]);
            }
        }
    }
    assert(post.wd_index_sound()) by {
        assert forall|p: Seq<char>| #[trigger] post.wd_index().contains_key(p) implies ({
            let l = post.wd_index()[p]@;
            l.len() > 0 && forall|i: int| 0 <= i < l.len() ==> post.entries_map().contains_key(
                #[trigger] l[i],
            ) && post.entries_map()[l[i]].wd_spec() == p
        }) by {
            let l = post.wd_index()[p]@;
            assert(pre.wd_index().contains_key(p));
            assert forall|i: int| 0 <= i < l.len() implies post.entries_map().contains_key(
                #[trigger] l[i],
            ) && post.entries_map()[l[i]].wd_spec() == p by {
                assert(pre.entries_map().contains_key(l[i]));
                if l[i] != pk {
                    assert(post.entries_map()[l[i]] == pre.entries_map()[l[i]]);
                }
            }
        }
    }
    assert(post.wd_index_complete()) by {
        assert forall|q: EntryKey| #[trigger] post.entries_map().contains_key(q) implies ({
            let p = post.entries_map()[q].wd_spec();
            post.wd_index().contains_key(p) && post.wd_index()[p]@.contains(q)
        }) by {
            assert(pre.entries_map().contains_key(q));
            if q != pk {
                assert(post.entries_map()[q] == pre.entries_map()[q]);
            }
        }
    }
    assert(post.children_sound() && post.children_keys_known()) by {
        assert forall|d: EntryKey, m: Seq<char>|
            #![trigger post.entries_map()[d].children_spec().contains_key(m)]
            post.entries_map().contains_key(d)
                && post.entries_map()[d].children_spec().contains_key(m) implies ({
            let c = post.entries_map()[d].children_spec()[m];
            post.key_known_spec(c) && (post.entries_map().contains_key(c)
                ==> post.entries_map()[c].parent_spec() == Option::Some(d)
                && post.entries_map()[c].name_spec() == m)
        }) by {
            assert(pre.entries_map().contains_key(d));
            let c = post.entries_map()[d].children_spec()[m];
            if d == pk {
                assert(pre.entries_map()[pk].children_spec().contains_key(m));
                assert(c == pre.entries_map()[pk].children_spec()[m]);
            } else {
                assert(post.entries_map()[d] == pre.entries_map()[d]);
                assert(pre.entries_map()[d].children_spec().contains_key(m));
                assert(c == pre.entries_map()[d].children_spec()[m]);
            }
            assert(pre.key_known_spec(c));
            if post.entries_map().contains_key(c) {
                assert(pre.entries_map().contains_key(c));
                if c != pk {
                    assert(post.entries_map()[c] == pre.entries_map()[c]);
                }
            }
        }
    }
    assert(post.symlink_index_complete()) by {
        assert forall|q: EntryKey| #[trigger] post.entries_map().contains_key(q)
            && post.entries_map()[q] is Symlink implies ({
            let t = post.entries_map()[q].link_spec();
            post.symlink_index().contains_key(t) && post.symlink_index()[t]@.contains(q)
        }) by {
            assert(pre.entries_map().contains_key(q));
            if q != pk {
                assert(post.entries_map()[q] == pre.entries_map()[q]);
            } else {
                assert(pre.entries_map()[q] is Symlink);
            }
        }
    }
    assert(post.symlink_index_sound()) by {
        assert forall|t: Seq<char>| #[trigger] post.symlink_index().contains_key(t) implies ({
            let l = post.symlink_index()[t]@;
            l.len() > 0 && forall|i: int| 0 <= i < l.len() ==> post.entries_map().contains_key(
                #[trigger] l[i],
            ) && post.entries_map()[l[i]] is Symlink && post.entries_map()[l[i]].link_spec() == t
        }) by {
            let l = post.symlink_index()[t]@;
            assert(pre.symlink_index().contains_key(t));
            assert forall|i: int| 0 <= i < l.len() implies post.entries_map().contains_key(
                #[trigger] l[i],
            ) && post.entries_map()[l[i]] is Symlink && post.entries_map()[l[i]].link_spec()
                == t by {
                assert(pre.entries_map().contains_key(l[i]));
                assert(pre.entries_map()[l[i]] is Symlink);
                if l[i] != pk {
                    assert(post.entries_map()[l[i]] == pre.entries_map()[l[i]]);
                }
            }
        }
    }
    assert(post.watches_match()) by {
        assert(post.wd_index().dom() =~= pre.wd_index().dom());
    }
    assert(shrinks_entries(pre, post)) by {
        assert forall|q: EntryKey| #[trigger] post.entries_map().contains_key(q) implies
            pre.entries_map().contains_key(q) && entry_shape_eq(
            pre.entries_map()[q],
            post.entries_map()[q],
        ) by {
            if q != pk {
                assert(post.entries_map()[q] == pre.entries_map()[q]);
            }
        }
    }
}

/// The event vector only grew and no appended event is an `Initialize`:
/// the bootstrap block stays the only source of those.
pub open spec fn no_initialize_events(pre_ev: Seq<Event>, post_ev: Seq<Event>) -> bool {
    &&& pre_ev.len() <= post_ev.len()
    &&& pre_ev == post_ev.take(pre_ev.len() as int)
    &&& forall|j: int| pre_ev.len() <= j < post_ev.len() ==> !((#[trigger] post_ev[j])
        is Initialize)
}

/// The event vector only grew and every appended event is a `New` or a
/// `Delete`: a rebuild emits no `Write` and no `Initialize`.
pub open spec fn only_tree_events(pre_ev: Seq<Event>, post_ev: Seq<Event>) -> bool {
    &&& pre_ev.len() <= post_ev.len()
    &&& pre_ev == post_ev.take(pre_ev.len() as int)
    &&& forall|j: int| pre_ev.len() <= j < post_ev.len() ==> ((#[trigger] post_ev[j]) is New
        || post_ev[j] is Delete)
}

proof fn lemma_tree_events_trans(ea: Seq<Event>, eb: Seq<Event>, ec: Seq<Event>)
    requires
        only_tree_events(ea, eb),
        only_tree_events(eb, ec),
    ensures
        only_tree_events(ea, ec),
{
    assert(ea =~= ec.take(ea.len() as int));
    assert(forall|j: int| 0 <= j < eb.len() ==> eb[j] == #[trigger] ec[j]);
}

proof fn lemma_tree_events_of_news(a: FileSystem, b: FileSystem, ea: Seq<Event>, eb: Seq<Event>)
    requires
        new_events_ok(a, b, ea, eb),
    ensures
        only_tree_events(ea, eb),
{
}

proof fn lemma_tree_events_of_deletes(a: FileSystem, b: FileSystem, ea: Seq<Event>, eb: Seq<Event>)
    requires
        delete_events_ok(a, b, ea, eb),
    ensures
        only_tree_events(ea, eb),
{
}

proof fn lemma_no_init_trans(ea: Seq<Event>, eb: Seq<Event>, ec: Seq<Event>)
    requires
        no_initialize_events(ea, eb),
        no_initialize_events(eb, ec),
    ensures
        no_initialize_events(ea, ec),
{
    assert(ea =~= ec.take(ea.len() as int));
    assert(forall|j: int| 0 <= j < eb.len() ==> eb[j] == #[trigger] ec[j]);
}

proof fn lemma_no_init_of_news(a: FileSystem, b: FileSystem, ea: Seq<Event>, eb: Seq<Event>)
    requires
        new_events_ok(a, b, ea, eb),
    ensures
        no_initialize_events(ea, eb),
{
}

proof fn lemma_no_init_of_emits(a: FileSystem, b: FileSystem, ea: Seq<Event>, eb: Seq<Event>)
    requires
        emits_ok(a, b, ea, eb),
    ensures
        no_initialize_events(ea, eb),
{
}

proof fn lemma_no_init_of_deletes(a: FileSystem, b: FileSystem, ea: Seq<Event>, eb: Seq<Event>)
    requires
        delete_events_ok(a, b, ea, eb),
    ensures
        no_initialize_events(ea, eb),
{
}

/// Whether every path a raw event carries is a valid absolute path.
pub open spec fn event_paths_valid(e: &WatchEvent) -> bool {
    match e {
        WatchEvent::Create(p) => path_valid(p@),
        WatchEvent::Write(_) => true,
        WatchEvent::Remove(p) => path_valid(p@),
        WatchEvent::Rename(f, t) => path_valid(f@) && path_valid(t@),
        WatchEvent::Rescan => true,
        WatchEvent::Error(_, _) => true,
    }
}

/// A removal that drops one file, or one symlink whose target passes by
/// the initial-dir rules on its own (so no cascade follows), touches
/// nothing else: every other entry stays live, every other index path
/// keeps its bindings.
pub open spec fn narrow_removal(
    pre: FileSystem,
    post: FileSystem,
    k: EntryKey,
    snap: Map<Seq<char>, FsNode>,
) -> bool {
    (pre.entries_map().contains_key(k) && !(pre.entries_map()[k] is Dir) && (pre.entries_map()[k]
        is Symlink ==> pre.initial_dir_target_spec(pre.entries_map()[k].link_spec(), snap)))
        ==> ({
        &&& forall|q: EntryKey| q != k ==> (#[trigger] pre.entries_map().contains_key(q)
            == post.entries_map().contains_key(q))
        &&& forall|p: Seq<char>| p != pre.entries_map()[k].wd_spec() ==> (
        #[trigger] pre.wd_index().contains_key(p) == post.wd_index().contains_key(p)) && (
        pre.wd_index().contains_key(p) ==> post.wd_index()[p] == pre.wd_index()[p])
    })
}

/// The conditions under which dropping a symlink entry must take its
/// orphaned target with it: the target lies elsewhere, is tracked, no rule
/// and no other symlink admits it, and nothing blocks its detach.
pub open spec fn orphans_target(pre: FileSystem, k: EntryKey, snap: Map<Seq<char>, FsNode>) -> bool {
    let t = pre.entries_map()[k].link_spec();
    &&& pre.entries_map().contains_key(k)
    &&& pre.entries_map()[k] is Symlink
    &&& t != pre.entries_map()[k].wd_spec()
    &&& parent_of(t) != pre.entries_map()[k].wd_spec()
    &&& !pre.initial_dir_target_spec(t, snap)
    &&& (forall|k2: EntryKey| key_grants(pre, k2, t) ==> k2 == k)
    &&& pre.wd_index().contains_key(t)
    &&& detach_refusal(pre, t) is None
}

/// Whether the path is one of the configured roots.
pub open spec fn is_initial_dir(pre: FileSystem, p: Seq<char>) -> bool {
    exists|i: int| 0 <= i < pre.initial_dirs_spec().len() && (#[trigger] pre.initial_dirs_spec()[
        i
    ])@ == p
}

/// What stops a removal's detach step: the tracked parent entry is no
/// directory.
pub open spec fn detach_refusal(pre: FileSystem, p: Seq<char>) -> Option<FsError> {
    if p != root_seq() && pre.wd_index().contains_key(parent_of(p)) && !(pre.entries_map()[
        pre.wd_index()[parent_of(p)]@[0]
    ] is Dir) {
        Option::Some(FsError::ParentNotValid)
    } else {
        Option::None
    }
}

/// The unobstructed insertion case: the path passes, is observed, resolves,
/// is no root, nothing blocks the attach, and the store has room.
pub open spec fn insert_clean(pre: FileSystem, p: Seq<char>, snap: Map<Seq<char>, FsNode>) -> bool {
    &&& pre.entries_len() < usize::MAX
    &&& pre.passes_spec(p, snap)
    &&& snap.contains_key(p)
    &&& resolve_spec(snap, p, MAX_LINK_FOLLOW as nat) is Some
    &&& p != root_seq()
    &&& attach_refusal(pre, p) is None
}

/// Whether some string in the list views as the given text.
fn list_contains(v: &Vec<String>, p: &str) -> (r: bool)
    ensures
        r == exists|i: int| 0 <= i < v@.len() && (#[trigger] v@[i])@ == p@,
{
    let n = v.len();
    let mut i: usize = 0;
    while i < n
        invariant
            n == v@.len(),
            0 <= i <= n,
            forall|j: int| 0 <= j < i ==> (#[trigger] v@[j])@ != p@,
        decreases n - i,
    {
        if crate::paths::str_eq(v[i].as_str(), p) {
            return true;
        }
        i += 1;
    }
    false
}

/// What stops the entry tracked under `from` from being renamed to `to`:
/// its recorded parent is gone or no directory, or the destination's
/// parent entry is no directory.
pub open spec fn rename_refusal(pre: FileSystem, from: Seq<char>, to: Seq<char>) -> Option<
    FsError,
> {
    let k = pre.wd_index()[from]@[0];
    let e = pre.entries_map()[k];
    if e.parent_spec() matches Option::Some(pk) && !pre.entries_map().contains_key(pk) {
        Option::Some(FsError::ParentLookup)
    } else if e.parent_spec() matches Option::Some(pk) && !(pre.entries_map()[pk] is Dir) {
        Option::Some(FsError::ParentNotValid)
    } else if pre.wd_index().contains_key(parent_of(to)) && !(pre.entries_map()[pre.wd_index()[
        parent_of(to)
    ]@[0]] is Dir) {
        Option::Some(FsError::ParentNotValid)
    } else {
        Option::None
    }
}

/// A round that only announces fresh entries satisfies the mixed emission
/// predicate.
proof fn lemma_emits_from_news(a: FileSystem, b: FileSystem, ea: Seq<Event>, eb: Seq<Event>)
    requires
        new_events_ok(a, b, ea, eb),
    ensures
        emits_ok(a, b, ea, eb),
{
    assert forall|j: int| ea.len() <= j < eb.len() implies ({
        let e = #[trigger] eb[j];
        match e {
            Event::New(k) => !a.entries_map().contains_key(k) && b.entries_map().contains_key(k),
            Event::Delete(k) => a.entries_map().contains_key(k) && !b.entries_map().contains_key(
                k,
            ),
            Event::Write(k) => a.entries_map().contains_key(k) && b.entries_map().contains_key(k),
            Event::Initialize(_) => false,
        }
    }) by {
        if a.entries_map().contains_key(eb[j].key_spec()) {
            a.entries.lemma_contains_known(eb[j].key_spec());
        }
    }
}

/// Deletions followed by rounds that keep the entry set satisfy the mixed
/// emission predicate.
proof fn lemma_emits_from_deletes(
    a: FileSystem,
    b: FileSystem,
    c: FileSystem,
    ea: Seq<Event>,
    eb: Seq<Event>,
)
    requires
        delete_events_ok(a, b, ea, eb),
        b.entries_map().dom() == c.entries_map().dom(),
    ensures
        delete_events_ok(a, c, ea, eb),
        emits_ok(a, c, ea, eb),
{
    assert forall|j: int| ea.len() <= j < eb.len() implies ({
        let e = #[trigger] eb[j];
        e is Delete && a.entries_map().contains_key(e.key_spec())
            && !c.entries_map().contains_key(e.key_spec()) && !(a.entries_map()[e.key_spec()]
            is Dir)
    }) by {
        assert(!b.entries_map().dom().contains(eb[j].key_spec()));
    }
}

/// After moving one entry's tracking from one path to another — its name
/// and watch identifier updated, its slot in the index moved — the cache
/// stays well formed.
proof fn lemma_relocate_wf(
    pre: FileSystem,
    post: FileSystem,
    k: EntryKey,
    from: Seq<char>,
    to: Seq<char>,
)
    requires
        pre.well_formed(),
        pre.entries_map().contains_key(k),
        pre.entries_map()[k].wd_spec() == from,
        !pre.wd_index().contains_key(to),
        to != from,
        path_valid(to),
        post.entries.inv(),
        post.watch_descriptors.inv(),
        post.symlinks.inv(),
        post.watcher.inv(),
        post.entries_map() == pre.entries_map().insert(k, post.entries_map()[k]),
        post.entries_map().contains_key(k),
        post.entries_map()[k].wd_spec() == to,
        post.entries_map()[k].name_spec() == leaf_of(to),
        post.entries_map()[k].inv(),
        (post.entries_map()[k] is Dir <==> pre.entries_map()[k] is Dir),
        (post.entries_map()[k] is File <==> pre.entries_map()[k] is File),
        (post.entries_map()[k] is Symlink <==> pre.entries_map()[k] is Symlink),
        post.entries_map()[k].link_spec() == pre.entries_map()[k].link_spec(),
        post.entries_map()[k].children_spec() == pre.entries_map()[k].children_spec(),
        post.wd_index().contains_key(to),
        post.wd_index()[to]@ == seq![k],
        ({
            ||| (post.wd_index() == pre.wd_index().remove(from).insert(to, post.wd_index()[to])
                && post.watched_paths() == pre.watched_paths().remove(from).insert(to) && (forall|
                x: EntryKey,
            |
                pre.wd_index()[from]@.contains(x) ==> x == k))
            ||| (post.wd_index().contains_key(from) && post.wd_index() == pre.wd_index().insert(
                from,
                post.wd_index()[from],
            ).insert(to, post.wd_index()[to]) && post.watched_paths()
                == pre.watched_paths().insert(to) && post.wd_index()[from]@.len() > 0 && (forall|
                j: int,
            |
                0 <= j < post.wd_index()[from]@.len() ==> (#[trigger] post.wd_index()[from]@[j])
                    != k && pre.wd_index()[from]@.contains(post.wd_index()[from]@[j])) && (forall|
                x: EntryKey,
            |
                pre.wd_index()[from]@.contains(x) && x != k ==> post.wd_index()[
                    from
                ]@.contains(x)))
        }),
        post.symlink_index() == pre.symlink_index(),
        forall|q: EntryKey| pre.key_known_spec(q) ==> post.key_known_spec(q),
        forall|d: EntryKey, m: Seq<char>|
            #![trigger pre.entries_map()[d].children_spec().contains_key(m)]
            pre.entries_map().contains_key(d) && pre.entries_map()[d].children_spec().contains_key(
                m,
            ) ==> pre.entries_map()[d].children_spec()[m] != k,
        post.initial_dirs_spec() == pre.initial_dirs_spec(),
    ensures
        post.well_formed(),
{
    assert(post.entries_ok()) by {
        assert forall|q: EntryKey| #[trigger] post.entries_map().contains_key(q) implies ({
            let e = post.entries_map()[q];
            e.inv() && path_valid(e.wd_spec()) && (e is Symlink ==> path_valid(e.link_spec()))
        }) by {
            assert(pre.entries_map().contains_key(q));
            if q != k {
                assert(post.entries_map()[q] == pre.entries_map()[q]);
            }
        }
    }
    assert(post.wd_index_sound()) by {
        assert forall|p: Seq<char>| #[trigger] post.wd_index().contains_key(p) implies ({
            let l = post.wd_index()[p]@;
            l.len() > 0 && forall|i: int| 0 <= i < l.len() ==> post.entries_map().contains_key(
                #[trigger] l[i],
            ) && post.entries_map()[l[i]].wd_spec() == p
        }) by {
            let l = post.wd_index()[p]@;
            if p == to {
                assert(l[0] == k);
            } else if p == from && post.wd_index().contains_key(from) {
                assert forall|i: int| 0 <= i < l.len() implies post.entries_map().contains_key(
                    #[trigger] l[i],
                ) && post.entries_map()[l[i]].wd_spec() == p by {
                    assert(l[i] != k && pre.wd_index()[from]@.contains(l[i]));
                    let w = choose|w: int| 0 <= w < pre.wd_index()[from]@.len()
                        && pre.wd_index()[from]@[w] == l[i];
                    assert(pre.entries_map().contains_key(l[i]));
                }
            } else {
                assert(pre.wd_index().contains_key(p));
                assert(l == pre.wd_index()[p]@);
                assert forall|i: int| 0 <= i < l.len() implies post.entries_map().contains_key(
                    #[trigger] l[i],
                ) && post.entries_map()[l[i]].wd_spec() == p by {
                    assert(pre.entries_map().contains_key(l[i]));
                    if l[i] == k {
                        assert(pre.entries_map()[k].wd_spec() == p);
                        assert(false);
                    }
                }
            }
        }
    }
    assert(post.wd_index_complete()) by {
        assert forall|q: EntryKey| #[trigger] post.entries_map().contains_key(q) implies ({
            let w = post.entries_map()[q].wd_spec();
            post.wd_index().contains_key(w) && post.wd_index()[w]@.contains(q)
        }) by {
            assert(pre.entries_map().contains_key(q));
            if q == k {
                assert(post.wd_index()[to]@[0] == k);
            } else {
                assert(post.entries_map()[q] == pre.entries_map()[q]);
                let w = pre.entries_map()[q].wd_spec();
                assert(pre.wd_index().contains_key(w) && pre.wd_index()[w]@.contains(q));
                if w == from {
                    if post.wd_index().contains_key(from) {
                        assert(post.wd_index()[from]@.contains(q));
                    } else {
                        assert(q == k);
                        assert(false);
                    }
                } else {
                    assert(w != to) by {
                        assert(pre.wd_index().contains_key(w));
                    }
                    assert(post.wd_index()[w] == pre.wd_index()[w]);
                }
            }
        }
    }
    assert(post.children_sound() && post.children_keys_known()) by {
        assert forall|d: EntryKey, m: Seq<char>|
            #![trigger post.entries_map()[d].children_spec().contains_key(m)]
            post.entries_map().contains_key(d)
                && post.entries_map()[d].children_spec().contains_key(m) implies ({
            let c = post.entries_map()[d].children_spec()[m];
            post.key_known_spec(c) && (post.entries_map().contains_key(c)
                ==> post.entries_map()[c].parent_spec() == Option::Some(d)
                && post.entries_map()[c].name_spec() == m)
        }) by {
            assert(pre.entries_map().contains_key(d));
            let c = post.entries_map()[d].children_spec()[m];
            if d == k {
                assert(pre.entries_map()[k].children_spec().contains_key(m));
                assert(c == pre.entries_map()[k].children_spec()[m]);
            } else {
                assert(post.entries_map()[d] == pre.entries_map()[d]);
                assert(pre.entries_map()[d].children_spec().contains_key(m));
                assert(c == pre.entries_map()[d].children_spec()[m]);
            }
            assert(pre.key_known_spec(c));
            if post.entries_map().contains_key(c) {
                assert(pre.entries_map().contains_key(c));
                if c != k {
                    assert(post.entries_map()[c] == pre.entries_map()[c]);
                } else {
                    // No live binding points at the relocated entry: its
                    // old parent binding was detached beforehand.
                    assert(false);
                }
            }
        }
    }
    assert(post.symlink_index_complete()) by {
        assert forall|q: EntryKey| #[trigger] post.entries_map().contains_key(q)
            && post.entries_map()[q] is Symlink implies ({
            let t = post.entries_map()[q].link_spec();
            post.symlink_index().contains_key(t) && post.symlink_index()[t]@.contains(q)
        }) by {
            assert(pre.entries_map().contains_key(q));
            if q != k {
                assert(post.entries_map()[q] == pre.entries_map()[q]);
            } else {
                assert(pre.entries_map()[q] is Symlink);
            }
        }
    }
    assert(post.symlink_index_sound()) by {
        assert forall|t: Seq<char>| #[trigger] post.symlink_index().contains_key(t) implies ({
            let l = post.symlink_index()[t]@;
            l.len() > 0 && forall|i: int| 0 <= i < l.len() ==> post.entries_map().contains_key(
                #[trigger] l[i],
            ) && post.entries_map()[l[i]] is Symlink && post.entries_map()[l[i]].link_spec() == t
        }) by {
            let l = post.symlink_index()[t]@;
            assert(pre.symlink_index().contains_key(t));
            assert forall|i: int| 0 <= i < l.len() implies post.entries_map().contains_key(
                #[trigger] l[i],
            ) && post.entries_map()[l[i]] is Symlink && post.entries_map()[l[i]].link_spec()
                == t by {
                assert(pre.entries_map().contains_key(l[i]));
                assert(pre.entries_map()[l[i]] is Symlink);
                if l[i] != k {
                    assert(post.entries_map()[l[i]] == pre.entries_map()[l[i]]);
                }
            }
        }
    }
    assert(post.watches_match()) by {
        if post.wd_index().contains_key(from) {
            assert(post.wd_index().dom() =~= pre.wd_index().dom().insert(to));
            assert(post.watched_paths() =~= post.wd_index().dom());
        } else {
            assert(post.wd_index().dom() =~= pre.wd_index().dom().remove(from).insert(to));
            assert(post.watched_paths() =~= post.wd_index().dom());
        }
    }
}

/// After taking one entry out of the store and out of the indices, the
/// cache is well formed again.
proof fn lemma_unregister_wf(pre: FileSystem, post: FileSystem, k: EntryKey, entry: Entry)
    requires
        pre.well_formed(),
        pre.entries_map().contains_key(k),
        entry == pre.entries_map()[k],
        post.entries.inv(),
        post.watch_descriptors.inv(),
        post.symlinks.inv(),
        post.watcher.inv(),
        post.entries_map() == pre.entries_map().remove(k),
        forall|q: EntryKey| pre.key_known_spec(q) ==> post.key_known_spec(q),
        ({
            let p = entry.wd_spec();
            ||| (post.wd_index() == pre.wd_index().remove(p) && post.watched_paths()
                == pre.watched_paths().remove(p) && (forall|x: EntryKey|
                pre.wd_index()[p]@.contains(x) ==> x == k))
            ||| (post.wd_index().contains_key(p) && post.wd_index() == pre.wd_index().insert(
                p,
                post.wd_index()[p],
            ) && post.watched_paths() == pre.watched_paths() && post.wd_index()[p]@.len() > 0 && (
            forall|j: int| 0 <= j < post.wd_index()[p]@.len() ==> (#[trigger] post.wd_index()[
                p
            ]@[j]) != k && pre.wd_index()[p]@.contains(post.wd_index()[p]@[j])) && (forall|
                x: EntryKey,
            |
                pre.wd_index()[p]@.contains(x) && x != k ==> post.wd_index()[p]@.contains(x)))
        }),
        ({
            if entry is Symlink {
                let t = entry.link_spec();
                ||| (post.symlink_index() == pre.symlink_index().remove(t) && (forall|x: EntryKey|
                    pre.symlink_index()[t]@.contains(x) ==> x == k))
                ||| (post.symlink_index().contains_key(t) && post.symlink_index()
                    == pre.symlink_index().insert(t, post.symlink_index()[t])
                    && post.symlink_index()[t]@.len() > 0 && (forall|j: int|
                    0 <= j < post.symlink_index()[t]@.len() ==> (#[trigger] post.symlink_index()[
                        t
                    ]@[j]) != k && pre.symlink_index()[t]@.contains(post.symlink_index()[t]@[j]))
                    && (forall|x: EntryKey| pre.symlink_index()[t]@.contains(x) && x != k
                    ==> post.symlink_index()[t]@.contains(x)))
            } else {
                post.symlink_index() == pre.symlink_index()
            }
        }),
        post.initial_dirs_spec() == pre.initial_dirs_spec(),
    ensures
        post.well_formed(),
        shrinks_entries(pre, post),
{
    let p = entry.wd_spec();
    assert(post.entries_ok()) by {
        assert forall|q: EntryKey| #[trigger] post.entries_map().contains_key(q) implies ({
            let e = post.entries_map()[q];
            e.inv() && path_valid(e.wd_spec()) && (e is Symlink ==> path_valid(e.link_spec()))
        }) by {
            assert(pre.entries_map().contains_key(q));
            assert(post.entries_map()[q] == pre.entries_map()[q]);
        }
    }
    assert(post.wd_index_sound()) by {
        assert forall|q: Seq<char>| #[trigger] post.wd_index().contains_key(q) implies ({
            let l = post.wd_index()[q]@;
            l.len() > 0 && forall|i: int| 0 <= i < l.len() ==> post.entries_map().contains_key(
                #[trigger] l[i],
            ) && post.entries_map()[l[i]].wd_spec() == q
        }) by {
            let l = post.wd_index()[q]@;
            assert(pre.wd_index().contains_key(q));
            if q == p && !(post.wd_index() == pre.wd_index().remove(p)) {
                assert forall|i: int| 0 <= i < l.len() implies post.entries_map().contains_key(
                    #[trigger] l[i],
                ) && post.entries_map()[l[i]].wd_spec() == q by {
                    assert(l[i] != k && pre.wd_index()[p]@.contains(l[i]));
                    let w = choose|w: int| 0 <= w < pre.wd_index()[p]@.len() && pre.wd_index()[
                        p
                    ]@[w] == l[i];
                    assert(pre.entries_map().contains_key(l[i]));
                }
            } else {
                assert(l == pre.wd_index()[q]@);
                assert forall|i: int| 0 <= i < l.len() implies post.entries_map().contains_key(
                    #[trigger] l[i],
                ) && post.entries_map()[l[i]].wd_spec() == q by {
                    assert(pre.entries_map().contains_key(l[i]));
                    if l[i] == k {
                        assert(pre.entries_map()[k].wd_spec() == q);
                        assert(q == p);
                        assert(false);
                    }
                }
            }
        }
    }
    assert(post.wd_index_complete()) by {
        assert forall|q: EntryKey| #[trigger] post.entries_map().contains_key(q) implies ({
            let w = post.entries_map()[q].wd_spec();
            post.wd_index().contains_key(w) && post.wd_index()[w]@.contains(q)
        }) by {
            assert(pre.entries_map().contains_key(q));
            assert(post.entries_map()[q] == pre.entries_map()[q]);
            let w = pre.entries_map()[q].wd_spec();
            assert(pre.wd_index().contains_key(w) && pre.wd_index()[w]@.contains(q));
            if w == p {
                if post.wd_index() == pre.wd_index().remove(p) {
                    assert(q == k);
                    assert(false);
                } else {
                    assert(q != k);
                    assert(post.wd_index()[w]@.contains(q));
                }
            } else {
                assert(post.wd_index().contains_key(w));
                assert(post.wd_index()[w] == pre.wd_index()[w]);
            }
        }
    }
    assert(post.children_sound() && post.children_keys_known()) by {
        assert forall|d: EntryKey, m: Seq<char>|
            #![trigger post.entries_map()[d].children_spec().contains_key(m)]
            post.entries_map().contains_key(d)
                && post.entries_map()[d].children_spec().contains_key(m) implies ({
            let c = post.entries_map()[d].children_spec()[m];
            post.key_known_spec(c) && (post.entries_map().contains_key(c)
                ==> post.entries_map()[c].parent_spec() == Option::Some(d)
                && post.entries_map()[c].name_spec() == m)
        }) by {
            assert(pre.entries_map().contains_key(d));
            assert(post.entries_map()[d] == pre.entries_map()[d]);
            assert(pre.entries_map()[d].children_spec().contains_key(m));
            let c = pre.entries_map()[d].children_spec()[m];
            assert(pre.key_known_spec(c));
            if post.entries_map().contains_key(c) {
                assert(pre.entries_map().contains_key(c));
                assert(post.entries_map()[c] == pre.entries_map()[c]);
            }
        }
    }
    assert(post.symlink_index_complete()) by {
        assert forall|q: EntryKey| #[trigger] post.entries_map().contains_key(q)
            && post.entries_map()[q] is Symlink implies ({
            let t = post.entries_map()[q].link_spec();
            post.symlink_index().contains_key(t) && post.symlink_index()[t]@.contains(q)
        }) by {
            assert(pre.entries_map().contains_key(q));
            assert(post.entries_map()[q] == pre.entries_map()[q]);
            let t = pre.entries_map()[q].link_spec();
            assert(pre.symlink_index().contains_key(t) && pre.symlink_index()[t]@.contains(q));
            if entry is Symlink && t == entry.link_spec() {
                if post.symlink_index() == pre.symlink_index().remove(t) {
                    assert(q == k);
                    assert(false);
                } else {
                    assert(q != k);
                    assert(post.symlink_index()[t]@.contains(q));
                }
            } else {
                if entry is Symlink {
                    assert(post.symlink_index().contains_key(t));
                    assert(post.symlink_index()[t] == pre.symlink_index()[t]);
                } else {
                    assert(post.symlink_index()[t] == pre.symlink_index()[t]);
                }
            }
        }
    }
    assert(post.symlink_index_sound()) by {
        assert forall|t: Seq<char>| #[trigger] post.symlink_index().contains_key(t) implies ({
            let l = post.symlink_index()[t]@;
            l.len() > 0 && forall|i: int| 0 <= i < l.len() ==> post.entries_map().contains_key(
                #[trigger] l[i],
            ) && post.entries_map()[l[i]] is Symlink && post.entries_map()[l[i]].link_spec() == t
        }) by {
            let l = post.symlink_index()[t]@;
            assert(pre.symlink_index().contains_key(t));
            if entry is Symlink && t == entry.link_spec() && !(post.symlink_index()
                == pre.symlink_index().remove(t)) {
                assert forall|i: int| 0 <= i < l.len() implies post.entries_map().contains_key(
                    #[trigger] l[i],
                ) && post.entries_map()[l[i]] is Symlink && post.entries_map()[l[i]].link_spec()
                    == t by {
                    assert(l[i] != k && pre.symlink_index()[t]@.contains(l[i]));
                    let w = choose|w: int| 0 <= w < pre.symlink_index()[t]@.len()
                        && pre.symlink_index()[t]@[w] == l[i];
                    assert(pre.entries_map().contains_key(l[i]));
                }
            } else {
                assert(l == pre.symlink_index()[t]@);
                assert forall|i: int| 0 <= i < l.len() implies post.entries_map().contains_key(
                    #[trigger] l[i],
                ) && post.entries_map()[l[i]] is Symlink && post.entries_map()[l[i]].link_spec()
                    == t by {
                    assert(pre.entries_map().contains_key(l[i]));
                    assert(pre.entries_map()[l[i]] is Symlink);
                    assert(pre.entries_map()[l[i]].link_spec() == t);
                    if l[i] == k {
                        assert(entry is Symlink && entry.link_spec() == t);
                        assert(false);
                    }
                }
            }
        }
    }
    assert(post.watches_match()) by {
        if post.wd_index() == pre.wd_index().remove(p) {
            assert(post.watched_paths() =~= post.wd_index().dom());
        } else {
            assert(post.wd_index().dom() =~= pre.wd_index().dom());
            assert(post.watched_paths() =~= post.wd_index().dom());
        }
    }
    assert(shrinks_entries(pre, post)) by {
        assert forall|q: EntryKey| #[trigger] post.entries_map().contains_key(q) implies
            pre.entries_map().contains_key(q) && entry_shape_eq(
            pre.entries_map()[q],
            post.entries_map()[q],
        ) by {
            assert(post.entries_map()[q] == pre.entries_map()[q]);
        }
    }
}

/// Pushing onto a sequence keeps every member and adds the new one.
proof fn lemma_push_contains<A>(l: Seq<A>, x: A)
    ensures
        l.push(x).contains(x),
        forall|y: A| l.contains(y) ==> #[trigger] l.push(x).contains(y),
{
    assert(l.push(x)[l.len() as int] == x);
    assert forall|y: A| l.contains(y) implies #[trigger] l.push(x).contains(y) by {
        let i = choose|i: int| 0 <= i < l.len() && l[i] == y;
        assert(l.push(x)[i] == y);
    }
}

/// Two entries agree on everything except possibly their children map.
pub open spec fn entry_shape_eq(a: Entry, b: Entry) -> bool {
    &&& (a is Dir <==> b is Dir)
    &&& (a is File <==> b is File)
    &&& (a is Symlink <==> b is Symlink)
    &&& a.name_spec() == b.name_spec()
    &&& a.wd_spec() == b.wd_spec()
    &&& a.parent_spec() == b.parent_spec()
    &&& a.link_spec() == b.link_spec()
    &&& (a is Symlink ==> symlink_rules_spec(a) == symlink_rules_spec(b))
}

/// The configuration is untouched: rules, roots and the buffered
/// bootstrap events are as before.
pub open spec fn same_config(a: FileSystem, b: FileSystem) -> bool {
    &&& a.rules_spec() == b.rules_spec()
    &&& a.initial_dirs_spec() == b.initial_dirs_spec()
    &&& a.initial_dir_rules_spec() == b.initial_dir_rules_spec()
    &&& a.initial_events_spec() == b.initial_events_spec()
}

/// The mirrored tree is untouched: entries, indices and watches are as
/// before; only the watch-action log may differ.
pub open spec fn same_tree(a: FileSystem, b: FileSystem) -> bool {
    &&& a.entries_map() == b.entries_map()
    &&& a.entries_len() == b.entries_len()
    &&& a.wd_index() == b.wd_index()
    &&& a.symlink_index() == b.symlink_index()
    &&& a.watched_paths() == b.watched_paths()
    &&& same_config(a, b)
}

/// Insertion-style framing: every old entry survives with its shape, old
/// watch-descriptor bindings survive, and known keys stay known.
pub open spec fn preserves_entries(pre: FileSystem, post: FileSystem) -> bool {
    &&& forall|k: EntryKey| #[trigger] pre.entries_map().contains_key(k)
        ==> post.entries_map().contains_key(k) && entry_shape_eq(
        pre.entries_map()[k],
        post.entries_map()[k],
    )
    &&& forall|q: Seq<char>| #[trigger] pre.wd_index().contains_key(q)
        ==> post.wd_index().contains_key(q) && forall|x: EntryKey|
            pre.wd_index()[q]@.contains(x) ==> #[trigger] post.wd_index()[q]@.contains(x)
    &&& forall|q: Seq<char>| #[trigger] pre.wd_index().contains_key(q)
        && pre.wd_index()[q]@.len() > 0 ==> post.wd_index()[q]@.len() > 0 && post.wd_index()[
        q
    ]@[0] == pre.wd_index()[q]@[0]
    &&& post.entries_len() >= pre.entries_len()
    &&& forall|q: EntryKey| #[trigger] pre.key_known_spec(q) ==> post.key_known_spec(q)
    &&& forall|d: EntryKey, m: Seq<char>|
        #![trigger pre.entries_map()[d].children_spec().contains_key(m)]
        pre.entries_map().contains_key(d) && pre.entries_map()[d].children_spec().contains_key(m)
            ==> post.entries_map()[d].children_spec().contains_key(m) && post.entries_map()[
            d
        ].children_spec()[m] == pre.entries_map()[d].children_spec()[m]
}

/// Removal-style framing: every surviving entry already existed with its
/// shape, and known keys stay known.
pub open spec fn shrinks_entries(pre: FileSystem, post: FileSystem) -> bool {
    &&& forall|k: EntryKey| #[trigger] post.entries_map().contains_key(k)
        ==> pre.entries_map().contains_key(k) && entry_shape_eq(
        pre.entries_map()[k],
        post.entries_map()[k],
    )
    &&& forall|q: EntryKey| #[trigger] pre.key_known_spec(q) ==> post.key_known_spec(q)
}

/// The event vector only grew, and every appended event is a `New` for a
/// key that was never seen before and is live afterwards; no key is
/// announced twice, and every newly live key is announced exactly once.
pub open spec fn new_events_ok(
    pre: FileSystem,
    post: FileSystem,
    pre_ev: Seq<Event>,
    post_ev: Seq<Event>,
) -> bool {
    &&& pre_ev.len() <= post_ev.len()
    &&& pre_ev == post_ev.take(pre_ev.len() as int)
    &&& forall|j: int| pre_ev.len() <= j < post_ev.len() ==> {
        let e = #[trigger] post_ev[j];
        e is New && !pre.key_known_spec(e.key_spec()) && post.entries_map().contains_key(
            e.key_spec(),
        )
    }
    &&& forall|i: int, j: int| pre_ev.len() <= i < j < post_ev.len() ==> (
    #[trigger] post_ev[i]).key_spec() != (#[trigger] post_ev[j]).key_spec()
    &&& forall|k: EntryKey| #[trigger] post.entries_map().contains_key(k)
        && !pre.entries_map().contains_key(k) ==> exists|j: int|
        pre_ev.len() <= j < post_ev.len() && (#[trigger] post_ev[j]).key_spec() == k
}

/// The event vector only grew, and every appended event is a `Delete` for a
/// key that was live before and is gone afterwards, never for a directory.
pub open spec fn delete_events_ok(
    pre: FileSystem,
    post: FileSystem,
    pre_ev: Seq<Event>,
    post_ev: Seq<Event>,
) -> bool {
    &&& pre_ev.len() <= post_ev.len()
    &&& pre_ev == post_ev.take(pre_ev.len() as int)
    &&& forall|j: int| pre_ev.len() <= j < post_ev.len() ==> {
        let e = #[trigger] post_ev[j];
        e is Delete && pre.entries_map().contains_key(e.key_spec())
            && !post.entries_map().contains_key(e.key_spec()) && !(pre.entries_map()[e.key_spec()]
            is Dir)
    }
    &&& forall|i: int, j: int| pre_ev.len() <= i < j < post_ev.len() ==> (
    #[trigger] post_ev[i]).key_spec() != (#[trigger] post_ev[j]).key_spec()
    &&& forall|k: EntryKey| #[trigger] pre.entries_map().contains_key(k)
        && !post.entries_map().contains_key(k) && !(pre.entries_map()[k] is Dir) ==> exists|
        j: int,
    |
        pre_ev.len() <= j < post_ev.len() && (#[trigger] post_ev[j]).key_spec() == k
}

/// Every appended event speaks truthfully of the state change: `New` keys
/// appeared, `Delete` keys disappeared, `Write` keys persist, and no
/// `Initialize` is emitted after bootstrap.
pub open spec fn emits_ok(
    pre: FileSystem,
    post: FileSystem,
    pre_ev: Seq<Event>,
    post_ev: Seq<Event>,
) -> bool {
    &&& pre_ev.len() <= post_ev.len()
    &&& pre_ev == post_ev.take(pre_ev.len() as int)
    &&& forall|j: int| pre_ev.len() <= j < post_ev.len() ==> {
        let e = #[trigger] post_ev[j];
        match e {
            Event::New(k) => !pre.entries_map().contains_key(k) && post.entries_map().contains_key(
                k,
            ),
            Event::Delete(k) => pre.entries_map().contains_key(k)
                && !post.entries_map().contains_key(k),
            Event::Write(k) => pre.entries_map().contains_key(k)
                && post.entries_map().contains_key(k),
            Event::Initialize(_) => false,
        }
    }
}

/// In a well-formed cache, every key in the watch-descriptor index
/// resolves to a live entry whose watch identifier is the indexing path.
pub proof fn lemma_wd_index_resolves(fs: FileSystem, p: Seq<char>, i: int)
    requires
        fs.well_formed(),
        fs.wd_index().contains_key(p),
        0 <= i < fs.wd_index()[p]@.len(),
    ensures
        fs.entries_map().contains_key(fs.wd_index()[p]@[i]),
        fs.entries_map()[fs.wd_index()[p]@[i]].wd_spec() == p,
        fs.wd_index()[p]@.len() > 0,
{
}

/// In a well-formed cache, an indexed path tracks at least one key.
pub proof fn lemma_wd_index_nonempty(fs: FileSystem, p: Seq<char>)
    requires
        fs.well_formed(),
        fs.wd_index().contains_key(p),
    ensures
        fs.wd_index()[p]@.len() > 0,
{
}

/// In a well-formed cache, every live entry's watch identifier is in the
/// index, with the entry's key in its sequence.
pub proof fn lemma_entry_is_indexed(fs: FileSystem, k: EntryKey)
    requires
        fs.well_formed(),
        fs.entries_map().contains_key(k),
    ensures
        fs.wd_index().contains_key(fs.entries_map()[k].wd_spec()),
        fs.wd_index()[fs.entries_map()[k].wd_spec()]@.contains(k),
{
}

/// In a well-formed cache, every key in the symlink index is a live
/// symlink entry whose recorded target is the indexing path.
pub proof fn lemma_symlink_index_resolves(fs: FileSystem, t: Seq<char>, i: int)
    requires
        fs.well_formed(),
        fs.symlink_index().contains_key(t),
        0 <= i < fs.symlink_index()[t]@.len(),
    ensures
        fs.entries_map().contains_key(fs.symlink_index()[t]@[i]),
        fs.entries_map()[fs.symlink_index()[t]@[i]] is Symlink,
        fs.entries_map()[fs.symlink_index()[t]@[i]].link_spec() == t,
        fs.symlink_index()[t]@.len() > 0,
{
}

/// In a well-formed cache, a live child bound in a directory's children
/// map carries that binding's name and points back at the directory. The
/// liveness guard is needed: a removal below a renamed directory can leave
/// a dangling child key behind.
pub proof fn lemma_children_coherent(fs: FileSystem, d: EntryKey, n: Seq<char>)
    requires
        fs.well_formed(),
        fs.entries_map().contains_key(d),
        fs.entries_map()[d].children_spec().contains_key(n),
        fs.entries_map().contains_key(fs.entries_map()[d].children_spec()[n]),
    ensures
        fs.entries_map()[fs.entries_map()[d].children_spec()[n]].parent_spec() == Option::Some(d),
        fs.entries_map()[fs.entries_map()[d].children_spec()[n]].name_spec() == n,
{
}

/// In a well-formed cache, every live symlink entry is listed in the
/// symlink index under its target.
pub proof fn lemma_symlink_indexed(fs: FileSystem, k: EntryKey)
    requires
        fs.well_formed(),
        fs.entries_map().contains_key(k),
        fs.entries_map()[k] is Symlink,
    ensures
        fs.symlink_index().contains_key(fs.entries_map()[k].link_spec()),
        fs.symlink_index()[fs.entries_map()[k].link_spec()]@.contains(k),
{
}

/// In a well-formed cache, the set of paths the kernel watcher holds
/// equals the key set of the watch-descriptor index.
pub proof fn lemma_watches_cover_index(fs: FileSystem)
    requires
        fs.well_formed(),
    ensures
        fs.watched_paths() == fs.wd_index().dom(),
{
}

/// Whether the event announces the key: `Initialize` or `New` for it.
pub open spec fn announces(e: Event, k: EntryKey) -> bool {
    (e is Initialize || e is New) && e.key_spec() == k
}

/// Whether the event deletes the key.
pub open spec fn deletes(e: Event, k: EntryKey) -> bool {
    e is Delete && e.key_spec() == k
}

/// How many events in the sequence announce the key.
pub open spec fn announce_count(ev: Seq<Event>, k: EntryKey) -> nat
    decreases ev.len(),
{
    if ev.len() == 0 {
        0
    } else {
        announce_count(ev.drop_last(), k) + (if announces(ev.last(), k) {
            1nat
        } else {
            0nat
        })
    }
}

/// How many events in the sequence delete the key.
pub open spec fn delete_count(ev: Seq<Event>, k: EntryKey) -> nat
    decreases ev.len(),
{
    if ev.len() == 0 {
        0
    } else {
        delete_count(ev.drop_last(), k) + (if deletes(ev.last(), k) {
            1nat
        } else {
            0nat
        })
    }
}

/// Extending a history with events that neither announce nor delete the
/// key leaves its counts alone.
proof fn lemma_counts_extend(ea: Seq<Event>, eb: Seq<Event>, k: EntryKey)
    requires
        ea.len() <= eb.len(),
        ea == eb.take(ea.len() as int),
        forall|j: int| ea.len() <= j < eb.len() ==> !announces(#[trigger] eb[j], k) && !deletes(
            eb[j],
            k,
        ),
    ensures
        announce_count(eb, k) == announce_count(ea, k),
        delete_count(eb, k) == delete_count(ea, k),
    decreases eb.len(),
{
    if eb.len() == ea.len() {
        assert(eb =~= ea);
    } else {
        assert(ea == eb.drop_last().take(ea.len() as int)) by {
            assert(eb.drop_last().take(ea.len() as int) =~= eb.take(ea.len() as int));
        }
        lemma_counts_extend(ea, eb.drop_last(), k);
    }
}

/// In a run of announcements with pairwise-distinct keys, a key is counted
/// once when present and never deleted.
proof fn lemma_counts_of_distinct_announces(ev: Seq<Event>, k: EntryKey)
    requires
        forall|j: int| 0 <= j < ev.len() ==> (#[trigger] ev[j]) is Initialize || ev[j] is New,
        forall|i: int, j: int| 0 <= i < j < ev.len() ==> (#[trigger] ev[i]).key_spec() != (
        #[trigger] ev[j]).key_spec(),
    ensures
        delete_count(ev, k) == 0,
        announce_count(ev, k) == (if exists|j: int| 0 <= j < ev.len() && (
        #[trigger] ev[j]).key_spec() == k {
            1nat
        } else {
            0nat
        }),
    decreases ev.len(),
{
    if ev.len() > 0 {
        lemma_counts_of_distinct_announces(ev.drop_last(), k);
        if ev.last().key_spec() == k {
            assert(forall|j: int| 0 <= j < ev.drop_last().len() ==> (
            #[trigger] ev.drop_last()[j]).key_spec() != k);
            assert(announce_count(ev.drop_last(), k) == 0) by {
                if exists|j: int| 0 <= j < ev.drop_last().len() && (
                #[trigger] ev.drop_last()[j]).key_spec() == k {
                    let j = choose|j: int| 0 <= j < ev.drop_last().len() && (
                    #[trigger] ev.drop_last()[j]).key_spec() == k;
                    assert(false);
                }
            }
            assert(ev[ev.len() - 1].key_spec() == k);
        } else {
            if exists|j: int| 0 <= j < ev.len() && (#[trigger] ev[j]).key_spec() == k {
                let j = choose|j: int| 0 <= j < ev.len() && (#[trigger] ev[j]).key_spec() == k;
                assert(ev.drop_last()[j].key_spec() == k);
            } else {
                if exists|j: int| 0 <= j < ev.drop_last().len() && (
                #[trigger] ev.drop_last()[j]).key_spec() == k {
                    let j = choose|j: int| 0 <= j < ev.drop_last().len() && (
                    #[trigger] ev.drop_last()[j]).key_spec() == k;
                    assert(ev[j].key_spec() == k);
                }
            }
        }
    }
}

/// A live key was handed out by the store.
pub proof fn lemma_live_key_known(fs: FileSystem, k: EntryKey)
    requires
        fs.entries_map().contains_key(k),
    ensures
        fs.key_known_spec(k),
{
    fs.entries.lemma_contains_known(k);
}

/// A consumer-visible event history is coherent with the store: every
/// live key was announced exactly once and never deleted, every `Delete`
/// was preceded by exactly one announcement and no earlier `Delete` of its
/// key, and a key the store never handed out is never mentioned.
pub open spec fn history_coherent(fs: FileSystem, ev: Seq<Event>) -> bool {
    &&& forall|k: EntryKey| #[trigger] fs.entries_map().contains_key(k) ==> announce_count(ev, k)
        == 1 && delete_count(ev, k) == 0
    &&& forall|j: int| 0 <= j < ev.len() && (#[trigger] ev[j]) is Delete ==> announce_count(
        ev.take(j),
        ev[j].key_spec(),
    ) == 1 && delete_count(ev.take(j), ev[j].key_spec()) == 0
    &&& forall|j: int| 0 <= j < ev.len() && (#[trigger] ev[j]) is Write ==> delete_count(
        ev.take(j),
        ev[j].key_spec(),
    ) == 0
    &&& forall|k: EntryKey| !(#[trigger] fs.key_known_spec(k)) ==> announce_count(ev, k) == 0
        && delete_count(ev, k) == 0
}

/// Bootstrap leaves a coherent history: the buffered block announces
/// exactly the live keys, one `Initialize` each.
pub proof fn lemma_history_bootstrap(fs: FileSystem, ev: Seq<Event>)
    requires
        forall|j: int| 0 <= j < ev.len() ==> (#[trigger] ev[j]) is Initialize,
        forall|j: int| 0 <= j < ev.len() ==> fs.entries_map().contains_key(
            (#[trigger] ev[j]).key_spec(),
        ),
        forall|i: int, j: int| 0 <= i < j < ev.len() ==> (#[trigger] ev[i]).key_spec() != (
        #[trigger] ev[j]).key_spec(),
        forall|k: EntryKey| #[trigger] fs.entries_map().contains_key(k) ==> exists|j: int|
            0 <= j < ev.len() && (#[trigger] ev[j]).key_spec() == k,
    ensures
        history_coherent(fs, ev),
{
    assert forall|k: EntryKey| #[trigger] fs.entries_map().contains_key(k) implies announce_count(
        ev,
        k,
    ) == 1 && delete_count(ev, k) == 0 by {
        lemma_counts_of_distinct_announces(ev, k);
    }
    assert forall|k: EntryKey| !(#[trigger] fs.key_known_spec(k)) implies announce_count(ev, k)
        == 0 && delete_count(ev, k) == 0 by {
        lemma_counts_of_distinct_announces(ev, k);
        if exists|j: int| 0 <= j < ev.len() && (#[trigger] ev[j]).key_spec() == k {
            let j = choose|j: int| 0 <= j < ev.len() && (#[trigger] ev[j]).key_spec() == k;
            lemma_live_key_known(fs, k);
        }
    }
}

/// A key the store once handed out and has dropped never comes back: a
/// growth round announces only never-seen keys.
proof fn lemma_no_resurrection(
    a: FileSystem,
    b: FileSystem,
    ea: Seq<Event>,
    eb: Seq<Event>,
    c: EntryKey,
)
    requires
        new_events_ok(a, b, ea, eb),
        a.key_known_spec(c),
        !a.entries_map().contains_key(c),
    ensures
        !b.entries_map().contains_key(c),
{
    if b.entries_map().contains_key(c) {
        let j = choose|j: int| ea.len() <= j < eb.len() && (#[trigger] eb[j]).key_spec() == c;
        assert(!a.key_known_spec(eb[j].key_spec()));
    }
}

/// A round that only announces fresh keys keeps the history coherent.
pub proof fn lemma_history_new_round(
    pre: FileSystem,
    post: FileSystem,
    ea: Seq<Event>,
    eb: Seq<Event>,
)
    requires
        history_coherent(pre, ea),
        new_events_ok(pre, post, ea, eb),
        preserves_entries(pre, post),
    ensures
        history_coherent(post, eb),
{
    let m = ea.len() as int;
    assert forall|k: EntryKey| #[trigger] post.entries_map().contains_key(k) implies
        announce_count(eb, k) == 1 && delete_count(eb, k) == 0 by {
        if pre.entries_map().contains_key(k) {
            lemma_live_key_known(pre, k);
            lemma_counts_extend(ea, eb, k);
        } else {
            let j0 = choose|j: int| m <= j < eb.len() && (#[trigger] eb[j]).key_spec() == k;
            assert(eb[j0] is New && !pre.key_known_spec(eb[j0].key_spec()));
            assert(announce_count(ea, k) == 0 && delete_count(ea, k) == 0);
            assert(ea == eb.take(j0).take(m)) by {
                assert(eb.take(j0).take(m) =~= eb.take(m));
            }
            lemma_counts_extend(ea, eb.take(j0), k);
            assert(announce_count(eb.take(j0), k) == 0 && delete_count(eb.take(j0), k) == 0) by {
                assert(forall|j: int| m <= j < j0 ==> (#[trigger] eb.take(j0)[j]).key_spec() != k);
                assert(forall|j: int| m <= j < j0 ==> !announces(#[trigger] eb.take(j0)[j], k)
                    && !deletes(eb.take(j0)[j], k));
            }
            lemma_counts_one_more_announce(eb, j0, k);
        }
    }
    assert forall|j: int| 0 <= j < eb.len() && (#[trigger] eb[j]) is Delete implies announce_count(
        eb.take(j),
        eb[j].key_spec(),
    ) == 1 && delete_count(eb.take(j), eb[j].key_spec()) == 0 by {
        assert(j < m);
        assert(eb[j] == ea[j]);
        assert(eb.take(j) =~= ea.take(j));
    }
    assert forall|j: int| 0 <= j < eb.len() && (#[trigger] eb[j]) is Write implies delete_count(
        eb.take(j),
        eb[j].key_spec(),
    ) == 0 by {
        assert(j < m);
        assert(eb[j] == ea[j]);
        assert(eb.take(j) =~= ea.take(j));
    }
    assert forall|k: EntryKey| !(#[trigger] post.key_known_spec(k)) implies announce_count(eb, k)
        == 0 && delete_count(eb, k) == 0 by {
        assert(!pre.key_known_spec(k));
        assert forall|j: int| m <= j < eb.len() implies !announces(#[trigger] eb[j], k)
            && !deletes(eb[j], k) by {
            if eb[j].key_spec() == k {
                assert(post.entries_map().contains_key(k));
                lemma_live_key_known(post, k);
            }
        }
        lemma_counts_extend(ea, eb, k);
    }
}

/// Counting up to and past one announcing event.
proof fn lemma_counts_one_more_announce(eb: Seq<Event>, j0: int, k: EntryKey)
    requires
        0 <= j0 < eb.len(),
        announces(eb[j0], k),
        announce_count(eb.take(j0), k) == 0,
        delete_count(eb.take(j0), k) == 0,
        forall|j: int| j0 < j < eb.len() ==> !announces(#[trigger] eb[j], k) && !deletes(
            eb[j],
            k,
        ),
    ensures
        announce_count(eb, k) == 1,
        delete_count(eb, k) == 0,
{
    let upto = eb.take(j0 + 1);
    assert(upto.drop_last() =~= eb.take(j0));
    assert(upto.last() == eb[j0]);
    assert(announce_count(upto, k) == 1 && delete_count(upto, k) == 0);
    assert(upto == eb.take(upto.len() as int));
    lemma_counts_extend(upto, eb, k);
}

/// A round that only deletes live keys keeps the history coherent.
pub proof fn lemma_history_delete_round(
    pre: FileSystem,
    post: FileSystem,
    ea: Seq<Event>,
    eb: Seq<Event>,
)
    requires
        history_coherent(pre, ea),
        delete_events_ok(pre, post, ea, eb),
        forall|k: EntryKey| #[trigger] post.entries_map().contains_key(k)
            ==> pre.entries_map().contains_key(k),
        forall|q: EntryKey| #[trigger] pre.key_known_spec(q) ==> post.key_known_spec(q),
    ensures
        history_coherent(post, eb),
{
    let m = ea.len() as int;
    assert forall|k: EntryKey| #[trigger] post.entries_map().contains_key(k) implies
        announce_count(eb, k) == 1 && delete_count(eb, k) == 0 by {
        assert(pre.entries_map().contains_key(k));
        assert forall|j: int| m <= j < eb.len() implies !announces(#[trigger] eb[j], k)
            && !deletes(eb[j], k) by {
            if eb[j].key_spec() == k {
                assert(!post.entries_map().contains_key(k));
            }
        }
        lemma_counts_extend(ea, eb, k);
    }
    assert forall|j: int| 0 <= j < eb.len() && (#[trigger] eb[j]) is Delete implies announce_count(
        eb.take(j),
        eb[j].key_spec(),
    ) == 1 && delete_count(eb.take(j), eb[j].key_spec()) == 0 by {
        if j < m {
            assert(eb[j] == ea[j]);
            assert(eb.take(j) =~= ea.take(j));
        } else {
            let c = eb[j].key_spec();
            assert(pre.entries_map().contains_key(c));
            assert(announce_count(ea, c) == 1 && delete_count(ea, c) == 0);
            assert(ea == eb.take(j).take(m)) by {
                assert(eb.take(j).take(m) =~= eb.take(m));
            }
            assert forall|w: int| m <= w < j implies !announces(#[trigger] eb.take(j)[w], c)
                && !deletes(eb.take(j)[w], c) by {
                assert(eb.take(j)[w] == eb[w]);
                assert(eb[w] is Delete);
                if eb[w].key_spec() == c {
                    assert(w < j);
                    assert(false);
                }
            }
            lemma_counts_extend(ea, eb.take(j), c);
        }
    }
    assert forall|j: int| 0 <= j < eb.len() && (#[trigger] eb[j]) is Write implies delete_count(
        eb.take(j),
        eb[j].key_spec(),
    ) == 0 by {
        assert(j < m);
        assert(eb[j] == ea[j]);
        assert(eb.take(j) =~= ea.take(j));
    }
    assert forall|k: EntryKey| !(#[trigger] post.key_known_spec(k)) implies announce_count(eb, k)
        == 0 && delete_count(eb, k) == 0 by {
        assert(!pre.key_known_spec(k));
        assert forall|j: int| m <= j < eb.len() implies !announces(#[trigger] eb[j], k)
            && !deletes(eb[j], k) by {
            if eb[j].key_spec() == k {
                assert(pre.entries_map().contains_key(k));
                lemma_live_key_known(pre, k);
            }
        }
        lemma_counts_extend(ea, eb, k);
    }
}

/// A round that leaves the tree alone and appends only `Write` events
/// keeps the history coherent.
pub proof fn lemma_history_write_round(
    pre: FileSystem,
    post: FileSystem,
    ea: Seq<Event>,
    eb: Seq<Event>,
)
    requires
        history_coherent(pre, ea),
        same_tree(pre, post),
        preserves_entries(pre, post),
        ea.len() <= eb.len(),
        ea == eb.take(ea.len() as int),
        forall|j: int| ea.len() <= j < eb.len() ==> (#[trigger] eb[j]) is Write
            && pre.entries_map().contains_key(eb[j].key_spec()),
    ensures
        history_coherent(post, eb),
{
    let m = ea.len() as int;
    assert forall|k: EntryKey| #[trigger] post.entries_map().contains_key(k) implies
        announce_count(eb, k) == 1 && delete_count(eb, k) == 0 by {
        assert(pre.entries_map().contains_key(k));
        lemma_counts_extend(ea, eb, k);
    }
    assert forall|j: int| 0 <= j < eb.len() && (#[trigger] eb[j]) is Delete implies announce_count(
        eb.take(j),
        eb[j].key_spec(),
    ) == 1 && delete_count(eb.take(j), eb[j].key_spec()) == 0 by {
        assert(j < m);
        assert(eb[j] == ea[j]);
        assert(eb.take(j) =~= ea.take(j));
    }
    assert forall|j: int| 0 <= j < eb.len() && (#[trigger] eb[j]) is Write implies delete_count(
        eb.take(j),
        eb[j].key_spec(),
    ) == 0 by {
        if j < m {
            assert(eb[j] == ea[j]);
            assert(eb.take(j) =~= ea.take(j));
        } else {
            let c = eb[j].key_spec();
            assert(pre.entries_map().contains_key(c));
            assert(delete_count(ea, c) == 0);
            assert(ea == eb.take(j).take(m)) by {
                assert(eb.take(j).take(m) =~= eb.take(m));
            }
            assert forall|w: int| m <= w < j implies !announces(#[trigger] eb.take(j)[w], c)
                && !deletes(eb.take(j)[w], c) by {
                assert(eb.take(j)[w] == eb[w]);
                assert(eb[w] is Write);
            }
            lemma_counts_extend(ea, eb.take(j), c);
        }
    }
    assert forall|k: EntryKey| !(#[trigger] post.key_known_spec(k)) implies announce_count(eb, k)
        == 0 && delete_count(eb, k) == 0 by {
        assert(!pre.key_known_spec(k));
        lemma_counts_extend(ea, eb, k);
    }
}

/// The write-ordering law: in a coherent history no `Write` is yielded
/// after the `Delete` of its key.
pub proof fn lemma_no_write_after_delete(fs: FileSystem, ev: Seq<Event>, j: int)
    requires
        history_coherent(fs, ev),
        0 <= j < ev.len(),
        ev[j] is Write,
    ensures
        delete_count(ev.take(j), ev[j].key_spec()) == 0,
{
}

/// The delete-ordering law: in a coherent history every `Delete` refers to
/// a key the consumer was told about exactly once, by `Initialize` or
/// `New`, and never deleted before.
pub proof fn lemma_delete_announced_once(fs: FileSystem, ev: Seq<Event>, j: int)
    requires
        history_coherent(fs, ev),
        0 <= j < ev.len(),
        ev[j] is Delete,
    ensures
        announce_count(ev.take(j), ev[j].key_spec()) == 1,
        delete_count(ev.take(j), ev[j].key_spec()) == 0,
{
}

/// The local rule scope of a symlink entry, empty for the other variants.
pub open spec fn symlink_rules_spec(e: Entry) -> Rules {
    match e {
        Entry::Symlink { rules, .. } => rules,
        _ => arbitrary(),
    }
}

/// Whether one tracked symlink key admits the path.
pub open spec fn key_grants(fs: FileSystem, k: EntryKey, path: Seq<char>) -> bool {
    fs.entries_map().contains_key(k) && fs.entries_map()[k] is Symlink && symlink_rules_spec(
        fs.entries_map()[k],
    ).passes_spec(path) && fs.rules_spec().included_spec(path)
}

} // verus!
