//! Semantic events handed to downstream consumers.

use crate::store::EntryKey;
use vstd::prelude::*;

verus! {

/// A semantic change to the mirrored tree.
///
/// Keys are stable within a process lifetime; a `Delete` key is valid only
/// while the consumer handles that event.
#[derive(Debug, Clone, Copy, PartialEq, Eq, Structural)]
pub enum Event {
    /// The entry existed at bootstrap.
    Initialize(EntryKey),
    /// The entry was created after bootstrap.
    New(EntryKey),
    /// Content changed for an existing file entry.
    Write(EntryKey),
    /// The entry was removed.
    Delete(EntryKey),
}

impl Event {
    /// The key the event speaks of.
    pub open spec fn key_spec(&self) -> EntryKey {
        match self {
            Event::Initialize(k) => *k,
            Event::New(k) => *k,
            Event::Write(k) => *k,
            Event::Delete(k) => *k,
        }
    }

    /// The key the event speaks of.
    pub fn key(&self) -> (r: EntryKey)
        ensures
            r == self.key_spec(),
    {
        match self {
            Event::Initialize(k) => *k,
            Event::New(k) => *k,
            Event::Write(k) => *k,
            Event::Delete(k) => *k,
        }
    }
}

} // verus!
