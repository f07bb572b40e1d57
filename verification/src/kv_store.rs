//! The store engine: an in-memory mapping from non-empty string keys to
//! values with optional expiry, modelled as a `Map` from key characters to
//! records. Every read honors expiry; nothing expired is ever returned.

use vstd::prelude::*;
use crate::entry::{Entry, EntryModel, Rec, StoreError, entry_live, rec_live, seq_views};

verus! {

/// No two entries share a key.
pub open spec fn unique_keys(es: Seq<EntryModel>) -> bool {
    forall|i: int, j: int|
        0 <= i < j < es.len() ==> (#[trigger] es[i]).key != (#[trigger] es[j]).key
}

/// The entry list is well formed: keys are unique and non-empty.
pub open spec fn wf_entries(es: Seq<EntryModel>) -> bool {
    &&& unique_keys(es)
    &&& forall|i: int| 0 <= i < es.len() ==> (#[trigger] es[i]).key.len() > 0
}

/// The mapping an entry list stands for; a later entry would win, though a
/// well-formed list never repeats a key.
pub open spec fn entries_map(es: Seq<EntryModel>) -> Map<Seq<char>, Rec>
    decreases es.len(),
{
    if es.len() == 0 {
        Map::empty()
    } else {
        entries_map(es.drop_last()).insert(es.last().key, es.last().rec())
    }
}

/// The mapping holds a key exactly when some entry carries it.
pub proof fn lemma_entries_map_domain(es: Seq<EntryModel>, k: Seq<char>)
    ensures
        entries_map(es).contains_key(k) <==> exists|i: int|
            0 <= i < es.len() && (#[trigger] es[i]).key == k,
    decreases es.len(),
{
    if es.len() > 0 {
        lemma_entries_map_domain(es.drop_last(), k);
        if es.last().key == k {
            assert(es[es.len() - 1].key == k);
        } else if entries_map(es).contains_key(k) {
            let i = choose|i: int| 0 <= i < es.len() - 1 && (#[trigger] es.drop_last()[i]).key == k;
            assert(es[i].key == k);
        } else {
            assert forall|i: int| 0 <= i < es.len() implies (#[trigger] es[i]).key != k by {
                if i < es.len() - 1 {
                    assert(es.drop_last()[i].key != k);
                }
            }
        }
    }
}

/// Under unique keys, the mapping sends each entry's key to that entry's
/// record.
pub proof fn lemma_entries_map_index(es: Seq<EntryModel>, i: int)
    requires
        unique_keys(es),
        0 <= i < es.len(),
    ensures
        entries_map(es).contains_key(es[i].key),
        entries_map(es)[es[i].key] == es[i].rec(),
    decreases es.len(),
{
    lemma_entries_map_domain(es, es[i].key);
    if i < es.len() - 1 {
        assert(es.drop_last()[i] == es[i]);
        lemma_entries_map_index(es.drop_last(), i);
        assert(es.last().key != es[i].key);
    }
}

/// Under unique keys, the mapping has exactly one element per entry.
pub proof fn lemma_entries_map_len(es: Seq<EntryModel>)
    requires
        unique_keys(es),
    ensures
        entries_map(es).dom().finite(),
        entries_map(es).dom().len() == es.len(),
    decreases es.len(),
{
    if es.len() > 0 {
        lemma_entries_map_len(es.drop_last());
        lemma_entries_map_domain(es.drop_last(), es.last().key);
        assert forall|i: int|
            0 <= i < es.len() - 1 implies (#[trigger] es.drop_last()[i]).key != es.last().key by {
            assert(es[i] == es.drop_last()[i]);
        }
        assert(!entries_map(es.drop_last()).contains_key(es.last().key));
    }
}

/// Replacing the entry that carries a key is insertion into the mapping.
pub proof fn lemma_entries_map_update(es: Seq<EntryModel>, i: int, e: EntryModel)
    requires
        unique_keys(es),
        0 <= i < es.len(),
        e.key == es[i].key,
    ensures
        entries_map(es.update(i, e)) == entries_map(es).insert(e.key, e.rec()),
    decreases es.len(),
{
    let up = es.update(i, e);
    if i == es.len() - 1 {
        assert(up.drop_last() =~= es.drop_last());
        assert(up.last() == e);
        assert(entries_map(es.drop_last()).insert(e.key, e.rec()) =~= entries_map(
            es.drop_last(),
        ).insert(es.last().key, es.last().rec()).insert(e.key, e.rec()));
    } else {
        assert(up.drop_last() =~= es.drop_last().update(i, e));
        assert(up.last() == es.last());
        assert(es.drop_last()[i] == es[i]);
        lemma_entries_map_update(es.drop_last(), i, e);
        assert(es.last().key != e.key);
        assert(entries_map(es.drop_last()).insert(e.key, e.rec()).insert(
            es.last().key,
            es.last().rec(),
        ) =~= entries_map(es.drop_last()).insert(es.last().key, es.last().rec()).insert(
            e.key,
            e.rec(),
        ));
    }
}

/// Appending an entry is insertion into the mapping.
pub proof fn lemma_entries_map_push(es: Seq<EntryModel>, e: EntryModel)
    ensures
        entries_map(es.push(e)) == entries_map(es).insert(e.key, e.rec()),
{
    assert(es.push(e).drop_last() =~= es);
    assert(es.push(e).last() == e);
}

/// Removing the entry that carries a key is removal from the mapping.
pub proof fn lemma_entries_map_remove(es: Seq<EntryModel>, i: int)
    requires
        unique_keys(es),
        0 <= i < es.len(),
    ensures
        entries_map(es.remove(i)) == entries_map(es).remove(es[i].key),
    decreases es.len(),
{
    let k = es[i].key;
    let rm = es.remove(i);
    if i == es.len() - 1 {
        assert(rm =~= es.drop_last());
        lemma_entries_map_domain(es.drop_last(), k);
        assert forall|q: int|
            0 <= q < es.len() - 1 implies (#[trigger] es.drop_last()[q]).key != k by {
            assert(es[q] == es.drop_last()[q]);
        }
        assert(!entries_map(es.drop_last()).contains_key(k));
        assert(entries_map(es.drop_last()) =~= entries_map(es.drop_last()).insert(
            es.last().key,
            es.last().rec(),
        ).remove(k));
    } else {
        assert(rm.drop_last() =~= es.drop_last().remove(i));
        assert(rm.last() == es.last());
        assert(es.drop_last()[i] == es[i]);
        lemma_entries_map_remove(es.drop_last(), i);
        assert(es.last().key != k);
        assert(entries_map(es.drop_last()).remove(k).insert(es.last().key, es.last().rec())
            =~= entries_map(es.drop_last()).insert(es.last().key, es.last().rec()).remove(k));
    }
}

/// The value a read returns: the record's payload, if the key is present and
/// the record is live at `now`.
pub open spec fn spec_get(m: Map<Seq<char>, Rec>, k: Seq<char>, now: u64) -> Option<Seq<char>> {
    if m.contains_key(k) && rec_live(m[k], now) {
        Some(m[k].value)
    } else {
        None
    }
}

/// The store engine. The entry order is the order of first insertion;
/// it carries no meaning, but it makes enumeration deterministic.
pub struct KvStore {
    entries: Vec<Entry>,
}

impl View for KvStore {
    type V = Map<Seq<char>, Rec>;

    open spec fn view(&self) -> Map<Seq<char>, Rec> {
        entries_map(self.entry_seq())
    }
}

impl KvStore {
    /// The store's entry list, in enumeration order.
    pub closed spec fn entry_seq(&self) -> Seq<EntryModel> {
        seq_views(self.entries@)
    }

    /// The store's internal invariant: unique, non-empty keys.
    pub open spec fn wf(&self) -> bool {
        wf_entries(self.entry_seq())
    }

    /// An empty store.
    pub fn new() -> (r: KvStore)
        ensures
            r.wf(),
            r@ == Map::<Seq<char>, Rec>::empty(),
            r.entry_seq() == Seq::<EntryModel>::empty(),
    {
        let r = KvStore { entries: Vec::new() };
        proof {
            assert(r.entry_seq() =~= Seq::<EntryModel>::empty());
        }
        r
    }

    /// The position of the entry carrying `key`, if any.
    fn find_index(&self, key: &str) -> (r: Option<usize>)
        ensures
            match r {
                Some(i) => i < self.entries@.len() && self.entry_seq()[i as int].key == key@,
                None => forall|i: int|
                    0 <= i < self.entry_seq().len() ==> (#[trigger] self.entry_seq()[i]).key
                        != key@,
            },
    {
        for i in 0..self.entries.len()
            invariant
                forall|q: int|
                    0 <= q < i ==> (#[trigger] self.entry_seq()[q]).key != key@,
        {
            if crate::text::str_eq(self.entries[i].key.as_str(), key) {
                return Some(i);
            }
        }
        None
    }

    /// The live value for `key` at time `now`; an expired entry is treated
    /// as absent.
    pub fn get_at(&self, key: &str, now: u64) -> (r: Option<String>)
        requires
            self.wf(),
        ensures
            match r {
                Some(v) => spec_get(self@, key@, now) == Some(v@),
                None => spec_get(self@, key@, now) is None,
            },
    {
        match self.find_index(key) {
            Some(i) => {
                proof {
                    lemma_entries_map_index(self.entry_seq(), i as int);
                }
                let e = &self.entries[i];
                match e.expires_at {
                    Some(deadline) => {
                        if now < deadline {
                            Some(e.value.clone())
                        } else {
                            None
                        }
                    },
                    None => Some(e.value.clone()),
                }
            },
            None => {
                proof {
                    lemma_entries_map_domain(self.entry_seq(), key@);
                }
                None
            },
        }
    }
}

/// The expiry a `set` computes: `now + ttl` in saturating arithmetic, or no
/// expiry when no ttl is given.
pub open spec fn spec_expiry(ttl: Option<u64>, now: u64) -> Option<u64> {
    match ttl {
        Some(t) => Some(
            if now + t > u64::MAX {
                u64::MAX
            } else {
                (now + t) as u64
            },
        ),
        None => None,
    }
}

/// The remaining time a `get_ttl` reports: seconds until the deadline for a
/// live entry that has one; nothing for a missing or expired entry, and
/// nothing for an entry without expiry.
pub open spec fn spec_get_ttl(m: Map<Seq<char>, Rec>, k: Seq<char>, now: u64) -> Option<u64> {
    if m.contains_key(k) && rec_live(m[k], now) {
        match m[k].expires_at {
            Some(deadline) => Some((deadline - now) as u64),
            None => None,
        }
    } else {
        None
    }
}

impl KvStore {
    /// Inserts or overwrites `key` with `value` at time `now`; a ttl of `t`
    /// seconds sets the deadline `now + t`. An empty key is refused and the
    /// store left unchanged.
    pub fn set_at(&mut self, key: String, value: String, ttl: Option<u64>, now: u64) -> (r: Result<
        (),
        StoreError,
    >)
        requires
            old(self).wf(),
        ensures
            final(self).wf(),
            key@.len() > 0 ==> r is Ok && final(self)@ == old(self)@.insert(
                key@,
                Rec { value: value@, expires_at: spec_expiry(ttl, now) },
            ),
            key@.len() == 0 ==> r == Result::<(), StoreError>::Err(StoreError::EmptyKey)
                && final(self)@ == old(self)@ && final(self).entry_seq() == old(self).entry_seq(),
    {
        if key.as_str().is_empty() {
            return Err(StoreError::EmptyKey);
        }
        let expires_at = match ttl {
            Some(t) => {
                Some(now.saturating_add(t))
            },
            None => None,
        };
        let e = Entry { key, value, expires_at };
        let ghost es = self.entry_seq();
        match self.find_index(e.key.as_str()) {
            Some(i) => {
                proof {
                    lemma_entries_map_update(es, i as int, e@);
                }
                self.entries.remove(i);
                self.entries.insert(i, e);
                proof {
                    assert(self.entry_seq() =~= es.update(i as int, e@));
                    assert forall|q: int|
                        0 <= q < self.entry_seq().len() implies (#[trigger] self.entry_seq()[
                        q]).key.len() > 0 by {
                        if q != i {
                            assert(self.entry_seq()[q] == es[q]);
                        }
                    }
                }
                Ok(())
            },
            None => {
                proof {
                    lemma_entries_map_push(es, e@);
                }
                self.entries.push(e);
                proof {
                    assert(self.entry_seq() =~= es.push(e@));
                    assert forall|q: int|
                        0 <= q < self.entry_seq().len() implies (#[trigger] self.entry_seq()[
                        q]).key.len() > 0 by {
                        if q != es.len() {
                            assert(self.entry_seq()[q] == es[q]);
                        }
                    }
                }
                Ok(())
            },
        }
    }

    /// Removes `key` if present, and returns its value only when the entry
    /// was still live at `now`: a dead entry reads as absent, so its stale
    /// value is never observably returned, though the entry itself is
    /// dropped as a side effect. On an absent key nothing changes.
    pub fn delete_at(&mut self, key: &str, now: u64) -> (r: Option<String>)
        requires
            old(self).wf(),
        ensures
            final(self).wf(),
            final(self)@ == old(self)@.remove(key@),
            opt_view(r) == spec_get(old(self)@, key@, now),
            !old(self)@.contains_key(key@) ==> final(self).entry_seq() == old(self).entry_seq(),
    {
        let ghost es = self.entry_seq();
        match self.find_index(key) {
            Some(i) => {
                proof {
                    lemma_entries_map_index(es, i as int);
                    lemma_entries_map_remove(es, i as int);
                }
                let removed = self.entries.remove(i);
                proof {
                    assert(self.entry_seq() =~= es.remove(i as int));
                    assert forall|q: int|
                        0 <= q < self.entry_seq().len() implies (#[trigger] self.entry_seq()[
                        q]).key.len() > 0 by {
                        assert(self.entry_seq()[q] == if q < i as int {
                            es[q]
                        } else {
                            es[q + 1]
                        });
                    }
                    assert forall|a: int, b: int|
                        0 <= a < b < self.entry_seq().len() implies (
                        #[trigger] self.entry_seq()[a]).key != (
                        #[trigger] self.entry_seq()[b]).key by {
                        let a0 = if a < i as int { a } else { a + 1 };
                        let b0 = if b < i as int { b } else { b + 1 };
                        assert(self.entry_seq()[a] == es[a0]);
                        assert(self.entry_seq()[b] == es[b0]);
                    }
                }
                match removed.expires_at {
                    Some(deadline) => {
                        if now < deadline {
                            Some(removed.value)
                        } else {
                            None
                        }
                    },
                    None => Some(removed.value),
                }
            },
            None => {
                proof {
                    lemma_entries_map_domain(es, key@);
                    assert(old(self)@.remove(key@) =~= old(self)@);
                }
                None
            },
        }
    }

    /// The number of entries, live or not.
    pub fn len(&self) -> (r: usize)
        requires
            self.wf(),
        ensures
            r == self@.dom().len(),
            r == self.entry_seq().len(),
    {
        proof {
            lemma_entries_map_len(self.entry_seq());
        }
        self.entries.len()
    }

    /// Whether the store holds no entry at all.
    pub fn is_empty(&self) -> (r: bool)
        requires
            self.wf(),
        ensures
            r == (self@.dom().len() == 0),
            r == (self.entry_seq().len() == 0),
    {
        proof {
            lemma_entries_map_len(self.entry_seq());
        }
        self.entries.len() == 0
    }

    /// The raw entry list for the persistence encoder, which writes the
    /// whole in-memory mapping, swept or not; reads go through the live-only
    /// enumerations.
    pub(crate) fn entries_ref(&self) -> (r: &Vec<Entry>)
        ensures
            seq_views(r@) == self.entry_seq(),
    {
        &self.entries
    }

    /// The remaining seconds before `key` expires, as [`spec_get_ttl`]
    /// describes: nothing for a missing or expired key, and nothing for an
    /// entry without expiry.
    pub fn get_ttl_at(&self, key: &str, now: u64) -> (r: Option<u64>)
        requires
            self.wf(),
        ensures
            r == spec_get_ttl(self@, key@, now),
    {
        match self.find_index(key) {
            Some(i) => {
                proof {
                    lemma_entries_map_index(self.entry_seq(), i as int);
                }
                let e = &self.entries[i];
                match e.expires_at {
                    Some(deadline) => {
                        if now < deadline {
                            Some(deadline - now)
                        } else {
                            None
                        }
                    },
                    None => None,
                }
            },
            None => {
                proof {
                    lemma_entries_map_domain(self.entry_seq(), key@);
                }
                None
            },
        }
    }
}



/// The entries that are live at `now`, keeping their order.
pub open spec fn live_entries(es: Seq<EntryModel>, now: u64) -> Seq<EntryModel>
    decreases es.len(),
{
    if es.len() == 0 {
        Seq::empty()
    } else if entry_live(es.last(), now) {
        live_entries(es.drop_last(), now).push(es.last())
    } else {
        live_entries(es.drop_last(), now)
    }
}

/// The views of listed key-value pairs.
pub open spec fn pair_views(ps: Seq<(String, String)>) -> Seq<(Seq<char>, Seq<char>)> {
    ps.map_values(|p: (String, String)| (p.0@, p.1@))
}

/// The key-value pairs of the live entries, keeping their order.
pub open spec fn live_items(es: Seq<EntryModel>, now: u64) -> Seq<(Seq<char>, Seq<char>)> {
    live_entries(es, now).map_values(|e: EntryModel| (e.key, e.value))
}

/// Every entry the filter keeps is live.
pub proof fn lemma_live_entries_live(es: Seq<EntryModel>, now: u64)
    ensures
        forall|q: int|
            0 <= q < live_entries(es, now).len() ==> entry_live(
                #[trigger] live_entries(es, now)[q],
                now,
            ),
    decreases es.len(),
{
    if es.len() > 0 {
        lemma_live_entries_live(es.drop_last(), now);
        assert forall|q: int| 0 <= q < live_entries(es, now).len() implies entry_live(
            #[trigger] live_entries(es, now)[q],
            now,
        ) by {
            let led = live_entries(es.drop_last(), now);
            if q < led.len() {
                assert(live_entries(es, now)[q] == led[q]);
            } else {
                assert(live_entries(es, now)[q] == es.last());
            }
        }
    }
}

/// Every entry the filter keeps comes from the original list.
pub proof fn lemma_live_entries_elem(es: Seq<EntryModel>, now: u64)
    ensures
        forall|q: int|
            0 <= q < live_entries(es, now).len() ==> exists|i: int|
                0 <= i < es.len() && #[trigger] live_entries(es, now)[q] == es[i],
    decreases es.len(),
{
    if es.len() > 0 {
        lemma_live_entries_elem(es.drop_last(), now);
        assert forall|q: int| 0 <= q < live_entries(es, now).len() implies exists|i: int|
            0 <= i < es.len() && #[trigger] live_entries(es, now)[q] == es[i] by {
            let le = live_entries(es, now);
            let led = live_entries(es.drop_last(), now);
            if q < led.len() {
                let i = choose|i: int| 0 <= i < es.len() - 1 && led[q] == es.drop_last()[i];
                assert(es.drop_last()[i] == es[i]);
                assert(le[q] == es[i]);
            } else {
                assert(le[q] == es[es.len() - 1]);
            }
        }
    }
}

/// Every live entry of the original list is kept by the filter.
pub proof fn lemma_live_entries_complete(es: Seq<EntryModel>, now: u64, i: int)
    requires
        0 <= i < es.len(),
        entry_live(es[i], now),
    ensures
        exists|q: int|
            0 <= q < live_entries(es, now).len() && #[trigger] live_entries(es, now)[q] == es[i],
    decreases es.len(),
{
    let le = live_entries(es, now);
    if i == es.len() - 1 {
        assert(le[le.len() - 1] == es[i]);
    } else {
        assert(es.drop_last()[i] == es[i]);
        lemma_live_entries_complete(es.drop_last(), now, i);
        let q = choose|q: int|
            0 <= q < live_entries(es.drop_last(), now).len() && #[trigger] live_entries(
                es.drop_last(),
                now,
            )[q] == es[i];
        assert(le[q] == es[i]);
    }
}

/// The filter keeps well-formedness: unique, non-empty keys.
pub proof fn lemma_live_entries_wf(es: Seq<EntryModel>, now: u64)
    requires
        wf_entries(es),
    ensures
        wf_entries(live_entries(es, now)),
    decreases es.len(),
{
    if es.len() > 0 {
        assert forall|i: int, j: int|
            0 <= i < j < es.len() - 1 implies (#[trigger] es.drop_last()[i]).key != (
        #[trigger] es.drop_last()[j]).key by {
            assert(es.drop_last()[i] == es[i]);
            assert(es.drop_last()[j] == es[j]);
        }
        assert forall|i: int|
            0 <= i < es.len() - 1 implies (#[trigger] es.drop_last()[i]).key.len() > 0 by {
            assert(es.drop_last()[i] == es[i]);
        }
        lemma_live_entries_wf(es.drop_last(), now);
        if entry_live(es.last(), now) {
            lemma_live_entries_elem(es.drop_last(), now);
            let le = live_entries(es, now);
            let led = live_entries(es.drop_last(), now);
            assert forall|i: int, j: int|
                0 <= i < j < le.len() implies (#[trigger] le[i]).key != (#[trigger] le[j]).key by {
                if j < led.len() {
                    assert(le[i] == led[i] && le[j] == led[j]);
                } else {
                    assert(le[j] == es.last());
                    assert(le[i] == led[i]);
                    let m = choose|m: int|
                        0 <= m < es.len() - 1 && #[trigger] led[i] == es.drop_last()[m];
                    assert(es.drop_last()[m] == es[m]);
                    assert(es[m].key != es[es.len() - 1].key);
                }
            }
            assert forall|i: int| 0 <= i < le.len() implies (#[trigger] le[i]).key.len() > 0 by {
                if i < led.len() {
                    assert(le[i] == led[i]);
                } else {
                    assert(le[i] == es.last());
                }
            }
        }
    }
}

/// The mapping of the filtered list: exactly the live part of the original
/// mapping, values untouched.
pub proof fn lemma_live_entries_map(es: Seq<EntryModel>, now: u64, k: Seq<char>)
    requires
        wf_entries(es),
    ensures
        entries_map(live_entries(es, now)).contains_key(k) <==> (entries_map(es).contains_key(k)
            && rec_live(entries_map(es)[k], now)),
        entries_map(live_entries(es, now)).contains_key(k) ==> entries_map(
            live_entries(es, now),
        )[k] == entries_map(es)[k],
{
    let le = live_entries(es, now);
    lemma_live_entries_wf(es, now);
    lemma_entries_map_domain(le, k);
    lemma_entries_map_domain(es, k);
    if entries_map(le).contains_key(k) {
        let q = choose|q: int| 0 <= q < le.len() && (#[trigger] le[q]).key == k;
        lemma_live_entries_elem(es, now);
        lemma_live_entries_live(es, now);
        let i = choose|i: int| 0 <= i < es.len() && #[trigger] le[q] == es[i];
        lemma_entries_map_index(es, i);
        lemma_entries_map_index(le, q);
    } else if entries_map(es).contains_key(k) {
        let i = choose|i: int| 0 <= i < es.len() && (#[trigger] es[i]).key == k;
        lemma_entries_map_index(es, i);
        if rec_live(entries_map(es)[k], now) {
            lemma_live_entries_complete(es, now, i);
            let q = choose|q: int| 0 <= q < le.len() && #[trigger] le[q] == es[i];
            assert(le[q].key == k);
        }
    }
}

impl KvStore {
    /// The live key-value pairs at time `now`, in enumeration order. An
    /// expired entry is never listed.
    pub fn list_at(&self, now: u64) -> (r: Vec<(String, String)>)
        requires
            self.wf(),
        ensures
            pair_views(r@) == live_items(self.entry_seq(), now),
    {
        let ghost es = self.entry_seq();
        let mut out: Vec<(String, String)> = Vec::new();
        for i in 0..self.entries.len()
            invariant
                es == self.entry_seq(),
                pair_views(out@) == live_items(es.take(i as int), now),
        {
            proof {
                assert(es.take(i as int + 1).drop_last() =~= es.take(i as int));
                assert(es.take(i as int + 1).last() == es[i as int]);
            }
            let e = &self.entries[i];
            let live = match e.expires_at {
                Some(deadline) => now < deadline,
                None => true,
            };
            proof {
                assert(es[i as int] == self.entries@[i as int]@);
            }
            if live {
                let pair = (e.key.clone(), e.value.clone());
                proof {
                    assert(pair.0@ == es[i as int].key);
                    assert(pair.1@ == es[i as int].value);
                }
                let ghost prev = out@;
                out.push(pair);
                proof {
                    assert(live_entries(es.take(i as int + 1), now) =~= live_entries(
                        es.take(i as int),
                        now,
                    ).push(es[i as int]));
                    assert(pair_views(prev).len() == prev.len());
                    assert(pair_views(out@).len() == out@.len());
                    assert(live_items(es.take(i as int + 1), now).len() == live_entries(
                        es.take(i as int + 1),
                        now,
                    ).len());
                    assert(live_items(es.take(i as int), now).len() == live_entries(
                        es.take(i as int),
                        now,
                    ).len());
                    assert(out@.len() == live_items(es.take(i as int + 1), now).len());
                    assert forall|q: int|
                        0 <= q < out@.len() implies pair_views(out@)[q] == live_items(
                        es.take(i as int + 1),
                        now,
                    )[q] by {
                        if q < prev.len() {
                            assert(pair_views(out@)[q] == pair_views(prev)[q]);
                            assert(live_items(es.take(i as int + 1), now)[q] == live_items(
                                es.take(i as int),
                                now,
                            )[q]);
                        } else {
                            assert(pair_views(out@)[q] == (pair.0@, pair.1@));
                            assert(live_items(es.take(i as int + 1), now)[q] == (
                            es[i as int].key,
                            es[i as int].value,
                            ));
                        }
                    }
                    assert(pair_views(out@) =~= live_items(es.take(i as int + 1), now));
                }
            } else {
                proof {
                    assert(live_entries(es.take(i as int + 1), now) =~= live_entries(
                        es.take(i as int),
                        now,
                    ));
                    assert(pair_views(out@) =~= live_items(es.take(i as int + 1), now));
                }
            }
        }
        proof {
            assert(es.take(es.len() as int) =~= es);
        }
        out
    }

    /// Removes exactly the entries whose expiry has passed at `now`, and
    /// leaves every other entry untouched.
    pub fn cleanup_expired_at(&mut self, now: u64)
        requires
            old(self).wf(),
        ensures
            final(self).wf(),
            final(self).entry_seq() == live_entries(old(self).entry_seq(), now),
            forall|k: Seq<char>|
                final(self)@.contains_key(k) <==> (#[trigger] old(self)@.contains_key(k)
                    && rec_live(old(self)@[k], now)),
            forall|k: Seq<char>|
                #[trigger] final(self)@.contains_key(k) ==> final(self)@[k] == old(self)@[k],
    {
        let ghost orig = self.entry_seq();
        let mut i: usize = 0;
        let ghost mut j: int = 0;
        while i < self.entries.len()
            invariant
                0 <= j <= orig.len(),
                i as int == live_entries(orig.take(j), now).len(),
                self.entry_seq() =~= live_entries(orig.take(j), now) + orig.skip(j),
                wf_entries(orig),
            decreases self.entries@.len() - i,
        {
            proof {
                assert(self.entry_seq().len() == live_entries(orig.take(j), now).len()
                    + orig.skip(j).len());
                assert(j < orig.len());
                assert(self.entry_seq()[i as int] == orig.skip(j)[0]);
                assert(orig.skip(j)[0] == orig[j]);
                assert(orig.take(j + 1).drop_last() =~= orig.take(j));
                assert(orig.take(j + 1).last() == orig[j]);
            }
            let e = &self.entries[i];
            let live = match e.expires_at {
                Some(deadline) => now < deadline,
                None => true,
            };
            if live {
                i = i + 1;
                proof {
                    j = j + 1;
                    assert(live_entries(orig.take(j), now) =~= live_entries(
                        orig.take(j - 1),
                        now,
                    ).push(orig[j - 1]));
                    assert(self.entry_seq() =~= live_entries(orig.take(j), now) + orig.skip(j));
                }
            } else {
                let ghost before = self.entry_seq();
                self.entries.remove(i);
                proof {
                    j = j + 1;
                    assert(self.entry_seq() =~= before.remove(i as int));
                    assert(live_entries(orig.take(j), now) =~= live_entries(orig.take(j - 1), now));
                    assert(self.entry_seq() =~= live_entries(orig.take(j), now) + orig.skip(j));
                }
            }
        }
        proof {
            assert(orig.skip(j).len() == 0);
            assert(j == orig.len());
            assert(orig.take(j) =~= orig);
            assert(self.entry_seq() =~= live_entries(orig, now));
            lemma_live_entries_wf(orig, now);
            assert forall|k: Seq<char>|
                self@.contains_key(k) <==> (#[trigger] entries_map(orig).contains_key(k)
                    && rec_live(entries_map(orig)[k], now)) by {
                lemma_live_entries_map(orig, now, k);
            }
            assert forall|k: Seq<char>|
                #[trigger] self@.contains_key(k) implies self@[k] == entries_map(orig)[k] by {
                lemma_live_entries_map(orig, now, k);
            }
        }
    }

    /// A store built from a well-formed entry list, swept of entries already
    /// expired at `now`.
    pub fn from_entries(entries: Vec<Entry>, now: u64) -> (r: KvStore)
        requires
            wf_entries(seq_views(entries@)),
        ensures
            r.wf(),
            r.entry_seq() == live_entries(seq_views(entries@), now),
    {
        let mut st = KvStore { entries };
        st.cleanup_expired_at(now);
        st
    }
}

/// Whether an entry list is well formed, decided executably.
pub fn check_wf_entries(entries: &Vec<Entry>) -> (b: bool)
    ensures
        b == wf_entries(seq_views(entries@)),
{
    let ghost es = seq_views(entries@);
    for i in 0..entries.len()
        invariant
            es == seq_views(entries@),
            forall|q: int| 0 <= q < i ==> (#[trigger] es[q]).key.len() > 0,
            forall|a: int, b0: int|
                0 <= a < b0 < i ==> (#[trigger] es[a]).key != (#[trigger] es[b0]).key,
    {
        if entries[i].key.as_str().is_empty() {
            proof {
                assert(es[i as int].key.len() == 0);
            }
            return false;
        }
        for j in 0..i
            invariant
                0 <= i < entries@.len(),
                es == seq_views(entries@),
                forall|q: int| 0 <= q < j ==> (#[trigger] es[q]).key != es[i as int].key,
        {
            if crate::text::str_eq(entries[j].key.as_str(), entries[i].key.as_str()) {
                proof {
                    assert(es[j as int].key == es[i as int].key);
                    assert(!unique_keys(es));
                }
                return false;
            }
        }
    }
    true
}


/// The characters of an optional string.
pub open spec fn opt_view(o: Option<String>) -> Option<Seq<char>> {
    match o {
        Some(s) => Some(s@),
        None => None,
    }
}

impl KvStore {
    /// Reads the clock and looks `key` up at that time, as [`Self::get_at`]
    /// describes. The clock is outside the store's control, so the time the
    /// lookup used is only known to exist.
    pub fn get(&self, key: &str) -> (r: Option<String>)
        requires
            self.wf(),
        ensures
            exists|now: u64| opt_view(r) == #[trigger] spec_get(self@, key@, now),
            !self@.contains_key(key@) ==> r is None,
            self@.contains_key(key@) && self@[key@].expires_at is None ==> (r matches Some(v)
                && v@ == self@[key@].value),
            r matches Some(v) ==> (self@.contains_key(key@) && v@ == self@[key@].value),
    {
        let now = crate::clock::now_seconds();
        let r = self.get_at(key, now);
        proof {
            assert(opt_view(r) == spec_get(self@, key@, now));
        }
        r
    }

    /// Reads the clock and inserts or overwrites `key` with `value` against
    /// that time, as [`Self::set_at`] describes.
    pub fn set(&mut self, key: String, value: String, ttl: Option<u64>) -> (r: Result<
        (),
        StoreError,
    >)
        requires
            old(self).wf(),
        ensures
            final(self).wf(),
            key@.len() == 0 ==> r == Result::<(), StoreError>::Err(StoreError::EmptyKey)
                && final(self)@ == old(self)@,
            key@.len() > 0 ==> r is Ok,
            key@.len() > 0 && ttl is None ==> final(self)@ == old(self)@.insert(
                key@,
                Rec { value: value@, expires_at: None },
            ),
            key@.len() > 0 && ttl is Some ==> exists|now: u64|
                final(self)@ == old(self)@.insert(
                    key@,
                    Rec { value: value@, expires_at: #[trigger] spec_expiry(ttl, now) },
                ),
    {
        let now = crate::clock::now_seconds();
        let ghost k = key@;
        let ghost v = value@;
        let r = self.set_at(key, value, ttl, now);
        proof {
            if k.len() > 0 {
                assert(self@ == old(self)@.insert(k, Rec { value: v, expires_at: spec_expiry(ttl, now) }));
            }
        }
        r
    }

    /// Reads the clock and lists the pairs live at that time, as
    /// [`Self::list_at`] describes. Every listed pair is a present entry with
    /// its stored value, and an entry without expiry is always listed.
    pub fn list(&self) -> (r: Vec<(String, String)>)
        requires
            self.wf(),
        ensures
            exists|now: u64| pair_views(r@) == #[trigger] live_items(self.entry_seq(), now),
            forall|q: int|
                0 <= q < r@.len() ==> self@.contains_key(#[trigger] r@[q].0@) && r@[q].1@
                    == self@[r@[q].0@].value,
            forall|k: Seq<char>|
                #[trigger] self@.contains_key(k) && self@[k].expires_at is None ==> exists|q: int|
                    0 <= q < r@.len() && (#[trigger] r@[q].0)@ == k,
    {
        let now = crate::clock::now_seconds();
        let r = self.list_at(now);
        proof {
            let es = self.entry_seq();
            let le = live_entries(es, now);
            lemma_live_entries_elem(es, now);
            assert forall|q: int|
                0 <= q < r@.len() implies self@.contains_key(#[trigger] r@[q].0@) && r@[q].1@
                == self@[r@[q].0@].value by {
                assert(pair_views(r@).len() == r@.len());
                assert(live_items(es, now).len() == le.len());
                assert(pair_views(r@)[q] == (r@[q].0@, r@[q].1@));
                assert(live_items(es, now)[q] == (le[q].key, le[q].value));
                let i = choose|i: int| 0 <= i < es.len() && #[trigger] le[q] == es[i];
                lemma_entries_map_index(es, i);
            }
            assert forall|k: Seq<char>|
                #[trigger] self@.contains_key(k) && self@[k].expires_at is None implies exists|
            q: int| 0 <= q < r@.len() && (#[trigger] r@[q].0)@ == k by {
                lemma_entries_map_domain(es, k);
                let i = choose|i: int| 0 <= i < es.len() && (#[trigger] es[i]).key == k;
                lemma_entries_map_index(es, i);
                lemma_live_entries_complete(es, now, i);
                let q = choose|q: int| 0 <= q < le.len() && #[trigger] le[q] == es[i];
                assert(pair_views(r@).len() == r@.len());
                assert(live_items(es, now).len() == le.len());
                assert(pair_views(r@)[q] == (r@[q].0@, r@[q].1@));
                assert(live_items(es, now)[q] == (le[q].key, le[q].value));
                assert(r@[q].0@ == k);
            }
        }
        r
    }

    /// Reads the clock and reports the remaining seconds before `key`
    /// expires, as [`Self::get_ttl_at`] describes. A reported remainder is
    /// always at least one second and never more than the stored deadline.
    pub fn get_ttl(&self, key: &str) -> (r: Option<u64>)
        requires
            self.wf(),
        ensures
            exists|now: u64| r == #[trigger] spec_get_ttl(self@, key@, now),
            !self@.contains_key(key@) ==> r is None,
            r matches Some(t) ==> ({
                &&& self@.contains_key(key@)
                &&& self@[key@].expires_at matches Some(d) && 1 <= t <= d
            }),
    {
        let now = crate::clock::now_seconds();
        let r = self.get_ttl_at(key, now);
        proof {
            assert(r == spec_get_ttl(self@, key@, now));
        }
        r
    }

    /// Reads the clock and removes exactly the entries already expired at
    /// that time, as [`Self::cleanup_expired_at`] describes. No surviving
    /// entry is changed, and an entry without expiry always survives.
    pub fn cleanup_expired(&mut self)
        requires
            old(self).wf(),
        ensures
            final(self).wf(),
            exists|now: u64|
                final(self).entry_seq() == #[trigger] live_entries(old(self).entry_seq(), now),
            forall|k: Seq<char>|
                #[trigger] final(self)@.contains_key(k) ==> old(self)@.contains_key(k)
                    && final(self)@[k] == old(self)@[k],
            forall|k: Seq<char>|
                #[trigger] old(self)@.contains_key(k) && old(self)@[k].expires_at is None
                    ==> final(self)@.contains_key(k),
    {
        let now = crate::clock::now_seconds();
        self.cleanup_expired_at(now);
    }
}


impl KvStore {
    /// The entries live at time `now`, in enumeration order; an expired
    /// entry is never enumerated.
    pub fn get_all_at(&self, now: u64) -> (r: Vec<Entry>)
        requires
            self.wf(),
        ensures
            seq_views(r@) == live_entries(self.entry_seq(), now),
    {
        let ghost es = self.entry_seq();
        let mut out: Vec<Entry> = Vec::new();
        for i in 0..self.entries.len()
            invariant
                es == self.entry_seq(),
                seq_views(out@) == live_entries(es.take(i as int), now),
        {
            proof {
                assert(es.take(i as int + 1).drop_last() =~= es.take(i as int));
                assert(es.take(i as int + 1).last() == es[i as int]);
                assert(es[i as int] == self.entries@[i as int]@);
            }
            let e = &self.entries[i];
            let live = match e.expires_at {
                Some(deadline) => now < deadline,
                None => true,
            };
            if live {
                let kept = Entry {
                    key: e.key.clone(),
                    value: e.value.clone(),
                    expires_at: e.expires_at,
                };
                proof {
                    assert(kept@ == es[i as int]);
                }
                out.push(kept);
                proof {
                    assert(live_entries(es.take(i as int + 1), now) =~= live_entries(
                        es.take(i as int),
                        now,
                    ).push(es[i as int]));
                }
            } else {
                proof {
                    assert(live_entries(es.take(i as int + 1), now) =~= live_entries(
                        es.take(i as int),
                        now,
                    ));
                }
            }
            assert(seq_views(out@) =~= live_entries(es.take(i as int + 1), now));
        }
        proof {
            assert(es.take(es.len() as int) =~= es);
        }
        out
    }

    /// Reads the clock and enumerates the entries live at that time, as
    /// [`Self::get_all_at`] describes. Every enumerated entry is present
    /// with its stored record, and an entry without expiry is always
    /// enumerated; a dead entry never is.
    pub fn get_all(&self) -> (r: Vec<Entry>)
        requires
            self.wf(),
        ensures
            exists|now: u64| seq_views(r@) == #[trigger] live_entries(self.entry_seq(), now),
            forall|q: int|
                0 <= q < r@.len() ==> self@.contains_key(#[trigger] r@[q]@.key) && self@[r@[q]@.key]
                    == r@[q]@.rec(),
            forall|k: Seq<char>|
                #[trigger] self@.contains_key(k) && self@[k].expires_at is None ==> exists|q: int|
                    0 <= q < r@.len() && (#[trigger] r@[q])@.key == k,
    {
        let now = crate::clock::now_seconds();
        let r = self.get_all_at(now);
        proof {
            let es = self.entry_seq();
            let le = live_entries(es, now);
            lemma_live_entries_elem(es, now);
            assert forall|q: int|
                0 <= q < r@.len() implies self@.contains_key(#[trigger] r@[q]@.key) && self@[r@[
            q]@.key] == r@[q]@.rec() by {
                assert(seq_views(r@).len() == r@.len());
                assert(seq_views(r@)[q] == r@[q]@);
                let i = choose|i: int| 0 <= i < es.len() && #[trigger] le[q] == es[i];
                lemma_entries_map_index(es, i);
            }
            assert forall|k: Seq<char>|
                #[trigger] self@.contains_key(k) && self@[k].expires_at is None implies exists|
            q: int| 0 <= q < r@.len() && (#[trigger] r@[q])@.key == k by {
                lemma_entries_map_domain(es, k);
                let i = choose|i: int| 0 <= i < es.len() && (#[trigger] es[i]).key == k;
                lemma_entries_map_index(es, i);
                lemma_live_entries_complete(es, now, i);
                let q = choose|q: int| 0 <= q < le.len() && #[trigger] le[q] == es[i];
                assert(seq_views(r@)[q] == r@[q]@);
                assert(r@[q]@.key == k);
            }
        }
        r
    }

    /// Reads the clock and removes `key`, as [`Self::delete_at`] describes:
    /// the stored value comes back only for an entry still live at the
    /// delete's time; a dead or absent entry reports not-found.
    pub fn delete(&mut self, key: &str) -> (r: Option<String>)
        requires
            old(self).wf(),
        ensures
            final(self).wf(),
            final(self)@ == old(self)@.remove(key@),
            exists|now: u64| opt_view(r) == #[trigger] spec_get(old(self)@, key@, now),
            r matches Some(v) ==> (old(self)@.contains_key(key@) && v@ == old(self)@[key@].value),
            !old(self)@.contains_key(key@) ==> r is None && final(self).entry_seq() == old(
                self,
            ).entry_seq(),
            old(self)@.contains_key(key@) && old(self)@[key@].expires_at is None ==> (r matches Some(
                v,
            ) && v@ == old(self)@[key@].value),
    {
        let now = crate::clock::now_seconds();
        let r = self.delete_at(key, now);
        proof {
            assert(opt_view(r) == spec_get(old(self)@, key@, now));
        }
        r
    }
}

/// Setting a key without ttl and then reading it, at any time at all, yields
/// the value just stored: an entry without expiry is always live.
pub proof fn lemma_set_no_ttl_then_get(
    m: Map<Seq<char>, Rec>,
    k: Seq<char>,
    v: Seq<char>,
    now: u64,
)
    ensures
        spec_get(m.insert(k, Rec { value: v, expires_at: None }), k, now) == Some(v),
{
}

/// Setting a key with a positive ttl makes it readable at once and gone once
/// the deadline `now + t` has been reached, for deadlines that fit in `u64`;
/// a deadline clamped at `u64::MAX` is never reached.
pub proof fn lemma_set_ttl_then_get(
    m: Map<Seq<char>, Rec>,
    k: Seq<char>,
    v: Seq<char>,
    t: u64,
    now: u64,
    later: u64,
)
    requires
        t > 0,
        now + t <= u64::MAX,
    ensures
        spec_get(m.insert(k, Rec { value: v, expires_at: spec_expiry(Some(t), now) }), k, now)
            == Some(v),
        later >= now + t ==> spec_get(
            m.insert(k, Rec { value: v, expires_at: spec_expiry(Some(t), now) }),
            k,
            later,
        ) is None,
{
}

/// The boundary the previous law leaves out: a ttl whose deadline would
/// pass `u64::MAX` is clamped there, and such an entry reads as present at
/// every clock value the deadline exceeds — it never expires within `u64`
/// time.
pub proof fn lemma_saturated_deadline_never_passes(
    m: Map<Seq<char>, Rec>,
    k: Seq<char>,
    v: Seq<char>,
    t: u64,
    now: u64,
    later: u64,
)
    requires
        now + t > u64::MAX,
        later < u64::MAX,
    ensures
        spec_get(m.insert(k, Rec { value: v, expires_at: spec_expiry(Some(t), now) }), k, later)
            == Some(v),
{
}

/// After a deletion the key reads as absent, whatever the time.
pub proof fn lemma_delete_then_get(m: Map<Seq<char>, Rec>, k: Seq<char>, now: u64)
    ensures
        !m.remove(k).contains_key(k),
        spec_get(m.remove(k), k, now) is None,
{
}

/// Whatever a listing holds is a present, live entry carrying its stored
/// value: an expired entry is never listed, however many live and dead
/// entries coexist.
pub proof fn lemma_list_only_live(es: Seq<EntryModel>, now: u64, q: int)
    requires
        wf_entries(es),
        0 <= q < live_items(es, now).len(),
    ensures
        entries_map(es).contains_key(live_items(es, now)[q].0),
        rec_live(entries_map(es)[live_items(es, now)[q].0], now),
        live_items(es, now)[q].1 == entries_map(es)[live_items(es, now)[q].0].value,
{
    let le = live_entries(es, now);
    assert(live_items(es, now).len() == le.len());
    assert(live_items(es, now)[q] == (le[q].key, le[q].value));
    lemma_live_entries_elem(es, now);
    lemma_live_entries_live(es, now);
    let i = choose|i: int| 0 <= i < es.len() && #[trigger] le[q] == es[i];
    lemma_entries_map_index(es, i);
}


impl KvStore {
    /// Inserts or overwrites `key` with `value` against the clock, with an
    /// optional ttl in seconds; the same operation as [`Self::set`], under
    /// the name callers that always pass a ttl argument use.
    pub fn set_with_ttl(&mut self, key: String, value: String, ttl_seconds: Option<u64>) -> (r:
        Result<(), StoreError>)
        requires
            old(self).wf(),
        ensures
            final(self).wf(),
            key@.len() == 0 ==> r == Result::<(), StoreError>::Err(StoreError::EmptyKey)
                && final(self)@ == old(self)@,
            key@.len() > 0 ==> r is Ok,
            key@.len() > 0 && ttl_seconds is None ==> final(self)@ == old(self)@.insert(
                key@,
                Rec { value: value@, expires_at: None },
            ),
            key@.len() > 0 && ttl_seconds is Some ==> exists|now: u64|
                final(self)@ == old(self)@.insert(
                    key@,
                    Rec { value: value@, expires_at: #[trigger] spec_expiry(ttl_seconds, now) },
                ),
    {
        self.set(key, value, ttl_seconds)
    }
}

} // verus!

