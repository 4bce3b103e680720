//! What one probe pass finds, before it is turned into an entry.
use vstd::prelude::*;
use crate::entry::{Entry, OccupiedEntry, VacantEntry, VacantEntryState};
use crate::safe_hash::SafeHash;
use crate::table::FullBucket;

verus! {

/// The result of a search.
#[allow(inconsistent_fields)]
#[derive(Clone, Copy, Debug)]
pub enum InternalEntry {
    /// The key is in this bucket.
    Occupied { elem: FullBucket },
    /// The key is absent, and this is where it would go.
    Vacant { hash: SafeHash, elem: VacantEntryState },
    /// The table has no buckets.
    TableIsEmpty,
}

impl InternalEntry {
    /// The bucket that holds the key, if the key was found.
    pub fn into_occupied_bucket(self) -> (b: Option<FullBucket>)
        ensures
            b == match self {
                InternalEntry::Occupied { elem } => Some(elem),
                _ => None,
            },
    {
        match self {
            InternalEntry::Occupied { elem } => Some(elem),
            _ => None,
        }
    }

    /// The entry for `key` that this result stands for; none where the
    /// table has no buckets.
    pub fn into_entry<K>(self, key: K) -> (e: Option<Entry<K>>)
        ensures
            e == match self {
                InternalEntry::Occupied { elem } => Some(
                    Entry::Occupied(OccupiedEntry { key: Some(key), elem }),
                ),
                InternalEntry::Vacant { hash, elem } => Some(
                    Entry::Vacant(VacantEntry { hash, key, elem }),
                ),
                InternalEntry::TableIsEmpty => None,
            },
    {
        match self {
            InternalEntry::Occupied { elem } => Some(
                Entry::Occupied(OccupiedEntry { key: Some(key), elem }),
            ),
            InternalEntry::Vacant { hash, elem } => Some(
                Entry::Vacant(VacantEntry { hash, key, elem }),
            ),
            InternalEntry::TableIsEmpty => None,
        }
    }
}

} // verus!
