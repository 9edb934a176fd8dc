//! The record kept for one tracked filesystem object.

use crate::assoc::AssocMap;
use crate::rule::Rules;
use crate::store::EntryKey;
use vstd::prelude::*;

verus! {

/// A directory's children: leaf component name to entry key.
pub type Children = AssocMap<EntryKey>;

/// An in-memory record for a tracked filesystem object.
///
/// `wd` is the absolute path used as the watch identifier for the entry;
/// `parent` is a back-reference by key, owned by the containing directory's
/// `children` map.
pub enum Entry {
    /// A tracked directory.
    Dir {
        /// Leaf path component.
        name: String,
        /// Key of the containing directory, if attached.
        parent: Option<EntryKey>,
        /// Component name to child entry key.
        children: Children,
        /// Absolute path used as watch identifier.
        wd: String,
    },
    /// A tracked regular file.
    File {
        /// Leaf path component.
        name: String,
        /// Key of the containing directory, if attached.
        parent: Option<EntryKey>,
        /// Absolute path used as watch identifier.
        wd: String,
    },
    /// A tracked symbolic link.
    Symlink {
        /// Leaf path component.
        name: String,
        /// Key of the containing directory, if attached.
        parent: Option<EntryKey>,
        /// Absolute path used as watch identifier.
        wd: String,
        /// Absolute target path, as recorded at creation.
        link: String,
        /// Local rule scope granting admission to the target.
        rules: Rules,
    },
}

impl Entry {
    /// The entry's leaf component name.
    pub open spec fn name_spec(&self) -> Seq<char> {
        match self {
            Entry::Dir { name, .. } => name@,
            Entry::File { name, .. } => name@,
            Entry::Symlink { name, .. } => name@,
        }
    }

    /// The entry's absolute path (its watch identifier).
    pub open spec fn wd_spec(&self) -> Seq<char> {
        match self {
            Entry::Dir { wd, .. } => wd@,
            Entry::File { wd, .. } => wd@,
            Entry::Symlink { wd, .. } => wd@,
        }
    }

    /// The entry's parent key, if attached.
    pub open spec fn parent_spec(&self) -> Option<EntryKey> {
        match self {
            Entry::Dir { parent, .. } => *parent,
            Entry::File { parent, .. } => *parent,
            Entry::Symlink { parent, .. } => *parent,
        }
    }

    /// The children map of a directory entry, empty for the other variants.
    pub open spec fn children_spec(&self) -> Map<Seq<char>, EntryKey> {
        match self {
            Entry::Dir { children, .. } => children@,
            _ => Map::empty(),
        }
    }

    /// The symlink target, for symlink entries.
    pub open spec fn link_spec(&self) -> Seq<char> {
        match self {
            Entry::Symlink { link, .. } => link@,
            _ => Seq::empty(),
        }
    }

    /// Structural consistency of the variant's own collections.
    pub open spec fn inv(&self) -> bool {
        match self {
            Entry::Dir { children, .. } => children.inv(),
            _ => true,
        }
    }

    /// The entry's leaf component name.
    pub fn name(&self) -> (r: &String)
        ensures
            r@ == self.name_spec(),
    {
        match self {
            Entry::Dir { name, .. } => name,
            Entry::File { name, .. } => name,
            Entry::Symlink { name, .. } => name,
        }
    }

    /// The entry's absolute path (its watch identifier).
    pub fn path(&self) -> (r: &String)
        ensures
            r@ == self.wd_spec(),
    {
        match self {
            Entry::Dir { wd, .. } => wd,
            Entry::File { wd, .. } => wd,
            Entry::Symlink { wd, .. } => wd,
        }
    }

    /// The entry's parent key, if attached.
    pub fn parent(&self) -> (r: Option<EntryKey>)
        ensures
            r == self.parent_spec(),
    {
        match self {
            Entry::Dir { parent, .. } => *parent,
            Entry::File { parent, .. } => *parent,
            Entry::Symlink { parent, .. } => *parent,
        }
    }

    /// The same entry with its parent back-reference replaced.
    pub open spec fn with_parent_spec(self, p: Option<EntryKey>) -> Entry {
        match self {
            Entry::Dir { name, parent: _, children, wd } => (Entry::Dir {
                name,
                parent: p,
                children,
                wd,
            }),
            Entry::File { name, parent: _, wd } => (Entry::File { name, parent: p, wd }),
            Entry::Symlink { name, parent: _, wd, link, rules } => (Entry::Symlink {
                name,
                parent: p,
                wd,
                link,
                rules,
            }),
        }
    }

    /// Replaces the entry's parent back-reference.
    pub fn with_parent(self, p: Option<EntryKey>) -> (r: Entry)
        ensures
            r == self.with_parent_spec(p),
    {
        match self {
            Entry::Dir { name, parent: _, children, wd } => Entry::Dir {
                name,
                parent: p,
                children,
                wd,
            },
            Entry::File { name, parent: _, wd } => Entry::File { name, parent: p, wd },
            Entry::Symlink { name, parent: _, wd, link, rules } => Entry::Symlink {
                name,
                parent: p,
                wd,
                link,
                rules,
            },
        }
    }

    /// Whether this entry is a directory.
    pub fn is_dir(&self) -> (r: bool)
        ensures
            r == (*self is Dir),
    {
        match self {
            Entry::Dir { .. } => true,
            _ => false,
        }
    }
}

} // verus!
