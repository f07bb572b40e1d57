//! The persistence adapter's pure half: turning a store into its backing
//! text and a backing text back into a store. Reading and writing the file
//! itself is plain I/O and stays with the caller; it hands the text in and
//! out unchanged.
//!
//! A text that is not exactly a rendered store counts as corrupt, and a
//! corrupt store degrades to an empty one rather than failing startup — a
//! deliberate availability-over-durability tradeoff. Entries already expired
//! at load time are swept before the store is handed back.

use vstd::prelude::*;
use crate::codec::{parse_store, render_store};
use crate::entry::{EntryModel, rec_live, seq_views};
use crate::kv_store::{KvStore, entries_map, live_entries, wf_entries};

verus! {

/// The entry list a backing text hydrates to at time `now`: the parsed
/// entries swept of expired ones, if the text is a rendered well-formed
/// store; nothing otherwise.
pub open spec fn hydrate_spec(s: Seq<char>, now: u64) -> Seq<EntryModel> {
    match parse_store(s) {
        Some(es) => if wf_entries(es) {
            live_entries(es, now)
        } else {
            Seq::empty()
        },
        None => Seq::empty(),
    }
}

/// Persist/reload round trip: rendering a well-formed store and hydrating
/// the text back at any time yields exactly the entries that were live at
/// that time.
pub proof fn lemma_persist_reload(es: Seq<EntryModel>, now: u64)
    requires
        wf_entries(es),
    ensures
        hydrate_spec(render_store(es), now) == live_entries(es, now),
{
    crate::codec::lemma_parse_store_round_trip(es);
}

/// Persist/reload round trip on the mapping: after the round trip a key is
/// present exactly when it was present and live, with its value untouched.
pub proof fn lemma_persist_reload_map(es: Seq<EntryModel>, now: u64, k: Seq<char>)
    requires
        wf_entries(es),
    ensures
        entries_map(hydrate_spec(render_store(es), now)).contains_key(k) <==> (entries_map(
            es,
        ).contains_key(k) && rec_live(entries_map(es)[k], now)),
        entries_map(hydrate_spec(render_store(es), now)).contains_key(k) ==> entries_map(
            hydrate_spec(render_store(es), now),
        )[k] == entries_map(es)[k],
{
    lemma_persist_reload(es, now);
    crate::kv_store::lemma_live_entries_map(es, now, k);
}

/// The whole-file persistence adapter. Serialization is total and
/// deserialization never fails: it yields the empty store on corrupt input.
pub struct FileStorage;

impl FileStorage {
    /// An adapter.
    pub fn new() -> (r: FileStorage)
    {
        FileStorage
    }

    /// The backing text for `store`: the full mapping, rendered as
    /// [`render_store`] describes, replacing any prior contents on disk.
    pub fn encode(&self, store: &KvStore) -> (r: String)
        ensures
            r@ == render_store(store.entry_seq()),
    {
        let text = crate::codec::render_store_text(store.entries_ref());
        crate::text::chars_to_string(&text)
    }

    /// The store a backing text hydrates to at time `now`, as
    /// [`hydrate_spec`] describes: corrupt input degrades to the empty
    /// store, and entries already expired are swept.
    pub fn decode(&self, contents: &str, now: u64) -> (r: KvStore)
        ensures
            r.wf(),
            r.entry_seq() == hydrate_spec(contents@, now),
    {
        let chars = crate::text::str_chars(contents);
        match crate::codec::parse_store_text(&chars) {
            Some(entries) => {
                if crate::kv_store::check_wf_entries(&entries) {
                    KvStore::from_entries(entries, now)
                } else {
                    KvStore::new()
                }
            },
            None => KvStore::new(),
        }
    }
}

} // verus!
