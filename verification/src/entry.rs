//! The store's entries: a key, an opaque string payload, and an optional
//! absolute expiry timestamp in Unix seconds.

use vstd::prelude::*;

verus! {

/// Mathematical model of one stored record: the payload and the optional
/// expiry deadline.
pub struct Rec {
    pub value: Seq<char>,
    pub expires_at: Option<u64>,
}

/// Mathematical model of one entry, keyed.
pub struct EntryModel {
    pub key: Seq<char>,
    pub value: Seq<char>,
    pub expires_at: Option<u64>,
}

impl EntryModel {
    /// The keyless part of the entry.
    pub open spec fn rec(self) -> Rec {
        Rec { value: self.value, expires_at: self.expires_at }
    }
}

/// One entry of the store. `expires_at` is an absolute Unix timestamp in
/// seconds; `None` means the entry never expires.
pub struct Entry {
    pub key: String,
    pub value: String,
    pub expires_at: Option<u64>,
}

impl View for Entry {
    type V = EntryModel;

    open spec fn view(&self) -> EntryModel {
        EntryModel { key: self.key@, value: self.value@, expires_at: self.expires_at }
    }
}

/// An entry is live at `now` when it has no deadline or its deadline has not
/// yet passed; it expires exactly at the deadline.
pub open spec fn rec_live(r: Rec, now: u64) -> bool {
    match r.expires_at {
        None => true,
        Some(deadline) => now < deadline,
    }
}

/// Liveness of a keyed entry, see [`rec_live`].
pub open spec fn entry_live(e: EntryModel, now: u64) -> bool {
    rec_live(e.rec(), now)
}

/// The models of a sequence of entries, in order.
pub open spec fn seq_views(es: Seq<Entry>) -> Seq<EntryModel> {
    es.map_values(|e: Entry| e@)
}

/// The errors a mutation can report. Absence and expiry are ordinary results,
/// never errors; I/O failures are reported by whoever touches the disk, not
/// here.
pub enum StoreError {
    /// The key was empty; keys must be non-empty strings.
    EmptyKey,
}

impl StoreError {
    /// A short human-readable description.
    pub fn message(&self) -> &'static str {
        match self {
            StoreError::EmptyKey => "key must not be empty",
        }
    }
}

} // verus!
