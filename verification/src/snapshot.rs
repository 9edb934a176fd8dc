//! A value-level picture of the filesystem, as the cache observes it.
//!
//! The cache never touches the disk itself: the embedding program (or a
//! test) hands it a snapshot describing what each path currently is, and
//! the cache's metadata questions are answered from it. Symbolic links are
//! followed up to a fixed depth, as the kernel bounds link resolution.

use crate::assoc::AssocMap;
use crate::paths::{component_valid, path_valid};
use vstd::prelude::*;

verus! {

/// How many symbolic links a metadata lookup follows before giving up.
pub const MAX_LINK_FOLLOW: u64 = 40;

/// What one path currently is.
pub enum FsNode {
    /// A directory and the component names of its entries.
    Dir {
        /// Component names of the directory's entries.
        children: Vec<String>,
    },
    /// A regular file.
    File,
    /// A symbolic link and its absolute target.
    Symlink {
        /// The link's absolute target path.
        target: String,
    },
}

impl FsNode {
    /// Shape constraints: children are components, targets are paths.
    pub open spec fn node_valid(&self) -> bool {
        match self {
            FsNode::Dir { children } => forall|j: int| 0 <= j < children@.len()
                ==> component_valid((#[trigger] children@[j])@),
            FsNode::File => true,
            FsNode::Symlink { target } => path_valid(target@),
        }
    }
}

impl FsNode {
    /// Whether this node is a directory.
    pub fn is_dir_node(&self) -> (r: bool)
        ensures
            r == (*self is Dir),
    {
        match self {
            FsNode::Dir { .. } => true,
            _ => false,
        }
    }
}

/// Resolution of a path's metadata through symlink chains, `fuel` bounding
/// the number of links followed.
pub open spec fn resolve_spec(m: Map<Seq<char>, FsNode>, p: Seq<char>, fuel: nat) -> Option<FsNode>
    decreases fuel,
{
    if !m.contains_key(p) {
        Option::None
    } else {
        match m[p] {
            FsNode::Symlink { target } => if fuel == 0 {
                Option::None
            } else {
                resolve_spec(m, target@, (fuel - 1) as nat)
            },
            node => Option::Some(node),
        }
    }
}

/// A resolved node is one of the map's values.
pub proof fn lemma_resolve_in_map(m: Map<Seq<char>, FsNode>, p: Seq<char>, fuel: nat)
    ensures
        resolve_spec(m, p, fuel) matches Option::Some(n) ==> exists|q: Seq<char>|
            #[trigger] m.contains_key(q) && m[q] == n,
    decreases fuel,
{
    if m.contains_key(p) {
        match m[p] {
            FsNode::Symlink { target } => {
                if fuel > 0 {
                    lemma_resolve_in_map(m, target@, (fuel - 1) as nat);
                }
            },
            _ => {},
        }
    }
}

/// A snapshot of the observed filesystem: each known absolute path and what
/// sits at it.
pub struct FsSnapshot {
    nodes: AssocMap<FsNode>,
}

impl FsSnapshot {
    /// The path-to-node mapping.
    pub closed spec fn view(&self) -> Map<Seq<char>, FsNode> {
        self.nodes@
    }

    /// The backing association's own invariant.
    pub closed spec fn rep_inv(&self) -> bool {
        self.nodes.inv()
    }

    /// All keys are valid paths and all nodes well shaped.
    pub open spec fn inv(&self) -> bool {
        &&& self.rep_inv()
        &&& forall|p: Seq<char>| #[trigger] self@.contains_key(p) ==> path_valid(p)
            && self@[p].node_valid()
    }

    /// Constructs an empty snapshot.
    pub fn new() -> (r: Self)
        ensures
            r.inv(),
            r@ == Map::<Seq<char>, FsNode>::empty(),
    {
        FsSnapshot { nodes: AssocMap::new() }
    }

    /// Records what sits at a path, replacing any earlier record.
    pub fn set(&mut self, path: String, node: FsNode)
        requires
            old(self).inv(),
            path_valid(path@),
            node.node_valid(),
        ensures
            final(self).inv(),
            final(self)@ == old(self)@.insert(path@, node),
    {
        self.nodes.set(path, node);
        proof {
            assert forall|p: Seq<char>| #[trigger] self@.contains_key(p) implies path_valid(
                p,
            ) && self@[p].node_valid() by {
                if p != path@ {
                    assert(old(self)@.contains_key(p));
                    assert(self@[p] == old(self)@[p]);
                }
            }
        }
    }

    /// Forgets a path.
    pub fn remove(&mut self, path: &str)
        requires
            old(self).inv(),
        ensures
            final(self).inv(),
            final(self)@ == old(self)@.remove(path@),
    {
        let removed = self.nodes.remove(path);
        proof {
            if removed is None {
                assert(self.nodes@ =~= old(self).nodes@.remove(path@));
            }
            assert forall|p: Seq<char>| #[trigger] self@.contains_key(p) implies path_valid(
                p,
            ) && self@[p].node_valid() by {
                assert(old(self)@.contains_key(p));
                assert(self@[p] == old(self)@[p]);
            }
        }
    }

    /// What sits at the path itself, without following links: the `lstat`
    /// view, also answering what `read_link` would.
    pub fn get(&self, path: &str) -> (r: Option<&FsNode>)
        requires
            self.inv(),
        ensures
            match r {
                Option::Some(n) => self@.contains_key(path@) && *n == self@[path@],
                Option::None => !self@.contains_key(path@),
            },
    {
        self.nodes.get(path)
    }

    /// The path's metadata after following symlink chains: the `stat` view.
    pub fn resolve(&self, path: &str, fuel: u64) -> (r: Option<&FsNode>)
        requires
            self.inv(),
        ensures
            match r {
                Option::Some(n) => resolve_spec(self@, path@, fuel as nat) == Option::Some(*n)
                    && !(*n is Symlink),
                Option::None => resolve_spec(self@, path@, fuel as nat) is None,
            },
        decreases fuel,
    {
        match self.nodes.get(path) {
            Option::None => Option::None,
            Option::Some(node) => match node {
                FsNode::Symlink { target } => {
                    if fuel == 0 {
                        Option::None
                    } else {
                        self.resolve(target.as_str(), fuel - 1)
                    }
                },
                _ => Option::Some(node),
            },
        }
    }

    /// Whether the path exists once links are followed, as `Path::exists`
    /// answers it.
    pub fn path_exists(&self, path: &str) -> (r: bool)
        requires
            self.inv(),
        ensures
            r == (resolve_spec(self@, path@, MAX_LINK_FOLLOW as nat) is Some),
    {
        match self.resolve(path, MAX_LINK_FOLLOW) {
            Option::Some(_) => true,
            Option::None => false,
        }
    }
}

} // verus!
