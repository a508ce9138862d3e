//! The Inventory Store: the in-memory entity cache behind the
//! get-or-create-then-persist protocol. Its core contract: at most one
//! record per key ever exists in the cache, and a record, once cached, is
//! never evicted or replaced for the life of the store. Loading and saving
//! entity files is the caller's step; the store takes the outcome of a load
//! as a plain value and decides, atomically with respect to its own state,
//! whether to return the cached record, cache the loaded one, synthesize a
//! default, or surface a decode error.

use vstd::prelude::*;

use crate::items::{spec_add, InventoryItem};
use crate::record::EntityRecord;

verus! {

/// What the persistence adapter reported for a key missing from the cache:
/// a record decoded from the entity's file, no file at all, or a file that
/// exists but could not be decoded.
pub enum LoadOutcome {
    Loaded(EntityRecord),
    Missing,
    Corrupt,
}

/// Errors the store surfaces. A persisted record that exists but is
/// malformed is reported, never silently replaced by a default: silently
/// discarding corrupt data would destroy information.
#[derive(Clone, Copy, Debug, PartialEq, Eq, Structural)]
pub enum StoreError {
    Decode,
}

/// Well-formedness of the cache: every record keeps its own invariant, and
/// no two cached records share a key.
pub open spec fn store_wf(records: Seq<EntityRecord>) -> bool {
    &&& forall|i: int| 0 <= i < records.len() ==> (#[trigger] records[i]).wf()
    &&& forall|i: int, j: int|
        #![trigger records[i], records[j]]
        0 <= i < j < records.len() ==> records[i].key@ != records[j].key@
}

/// First cache slot holding the key, if any.
pub open spec fn key_slot(records: Seq<EntityRecord>, key: Seq<char>) -> Option<int>
    decreases records.len(),
{
    if records.len() == 0 {
        None
    } else if records[0].key@ == key {
        Some(0int)
    } else {
        match key_slot(records.skip(1), key) {
            None => None,
            Some(i) => Some(i + 1),
        }
    }
}

/// `key_slot` returns the first slot holding the key, and `None` only when
/// no slot holds it.
pub proof fn lemma_key_slot(records: Seq<EntityRecord>, key: Seq<char>)
    ensures
        match key_slot(records, key) {
            Some(i) => 0 <= i < records.len() && records[i].key@ == key && (forall|j: int|
                0 <= j < i ==> (#[trigger] records[j]).key@ != key),
            None => forall|j: int| 0 <= j < records.len() ==> (#[trigger] records[j]).key@ != key,
        },
    decreases records.len(),
{
    if records.len() == 0 {
    } else if records[0].key@ == key {
    } else {
        lemma_key_slot(records.skip(1), key);
        match key_slot(records.skip(1), key) {
            Some(i) => {
                assert(records.skip(1)[i] == records[i + 1]);
                assert forall|j: int| 0 <= j < i + 1 implies (#[trigger] records[j]).key@ != key by {
                    if j > 0 {
                        assert(records.skip(1)[j - 1] == records[j]);
                    }
                }
            },
            None => {
                assert forall|j: int| 0 <= j < records.len() implies (#[trigger] records[j]).key@
                    != key by {
                    if j > 0 {
                        assert(records.skip(1)[j - 1] == records[j]);
                    }
                }
            },
        }
    }
}

/// Converse of `lemma_key_slot`: a slot holding the key with no earlier
/// such slot is the one `key_slot` returns.
pub proof fn lemma_key_slot_is(records: Seq<EntityRecord>, key: Seq<char>, i: int)
    requires
        0 <= i < records.len(),
        records[i].key@ == key,
        forall|j: int| 0 <= j < i ==> (#[trigger] records[j]).key@ != key,
    ensures
        key_slot(records, key) == Some(i),
    decreases records.len(),
{
    if i == 0 {
    } else {
        assert(forall|j: int|
            0 <= j < records.len() - 1 ==> #[trigger] records.skip(1)[j] == records[j + 1]);
        lemma_key_slot_is(records.skip(1), key, i - 1);
    }
}

/// When no slot holds the key, `key_slot` returns `None`.
pub proof fn lemma_key_slot_none(records: Seq<EntityRecord>, key: Seq<char>)
    requires
        forall|j: int| 0 <= j < records.len() ==> (#[trigger] records[j]).key@ != key,
    ensures
        key_slot(records, key) == None::<int>,
    decreases records.len(),
{
    if records.len() > 0 {
        assert(forall|j: int|
            0 <= j < records.len() - 1 ==> #[trigger] records.skip(1)[j] == records[j + 1]);
        lemma_key_slot_none(records.skip(1), key);
    }
}

/// Caching a well-formed record under a key no cached record holds keeps
/// the cache well formed.
pub proof fn lemma_store_push_wf(records: Seq<EntityRecord>, rec: EntityRecord)
    requires
        store_wf(records),
        rec.wf(),
        forall|j: int| 0 <= j < records.len() ==> (#[trigger] records[j]).key@ != rec.key@,
    ensures
        store_wf(records.push(rec)),
{
    let res = records.push(rec);
    assert forall|i: int| 0 <= i < res.len() implies (#[trigger] res[i]).wf() by {
        if i < records.len() {
            assert(res[i] == records[i]);
        }
    }
    assert forall|i: int, j: int|
        #![trigger res[i], res[j]]
        0 <= i < j < res.len() implies res[i].key@ != res[j].key@ by {
        if j < records.len() {
            assert(res[i] == records[i] && res[j] == records[j]);
        } else {
            assert(res[i] == records[i] && res[j] == rec);
        }
    }
}

/// Replacing a cached record by a well-formed one with the same key keeps
/// the cache well formed.
pub proof fn lemma_store_update_wf(records: Seq<EntityRecord>, i: int, rec: EntityRecord)
    requires
        store_wf(records),
        0 <= i < records.len(),
        rec.wf(),
        rec.key@ == records[i].key@,
    ensures
        store_wf(records.update(i, rec)),
{
    let res = records.update(i, rec);
    assert forall|a: int| 0 <= a < res.len() implies (#[trigger] res[a]).wf() by {
        if a != i {
            assert(res[a] == records[a]);
        }
    }
    assert forall|a: int, b: int|
        #![trigger res[a], res[b]]
        0 <= a < b < res.len() implies res[a].key@ != res[b].key@ by {
        assert(res[a].key@ == records[a].key@);
        assert(res[b].key@ == records[b].key@);
    }
}

/// One-record-per-key law: in a well-formed cache, two slots holding the
/// same key are the same slot. Together with `get_or_create`'s contract —
/// a cached key is returned untouched, an uncached one is cached exactly
/// once — any number of get-or-create calls for one key, linearized by the
/// store's lock, leave exactly one record for it: none lost, none
/// duplicated.
pub proof fn lemma_one_record_per_key(records: Seq<EntityRecord>, key: Seq<char>, i: int, j: int)
    requires
        store_wf(records),
        0 <= i < records.len(),
        0 <= j < records.len(),
        records[i].key@ == key,
        records[j].key@ == key,
    ensures
        i == j,
{
}

/// The item stacks the record for `key` holds right after a successful
/// get-or-create against cache `records` with load outcome `loaded`: the
/// cached record's, the loaded record's, or none.
pub open spec fn base_items(records: Seq<EntityRecord>, key: Seq<char>, loaded: LoadOutcome) -> Seq<
    InventoryItem,
> {
    match key_slot(records, key) {
        Some(i) => records[i].items@,
        None => match loaded {
            LoadOutcome::Loaded(rec) => rec.items@,
            LoadOutcome::Missing => Seq::<InventoryItem>::empty(),
            LoadOutcome::Corrupt => Seq::<InventoryItem>::empty(),
        },
    }
}

/// Whether a get-or-create for `key` against cache `records` with load
/// outcome `loaded` succeeds: the key is cached, or the file was missing
/// (a default is synthesized), or a well-formed record for this key was
/// loaded. Only a corrupt or mismatched load fails.
pub open spec fn creates_ok(records: Seq<EntityRecord>, key: Seq<char>, loaded: LoadOutcome) -> bool {
    match key_slot(records, key) {
        Some(_) => true,
        None => match loaded {
            LoadOutcome::Loaded(rec) => rec.key@ == key && rec.wf(),
            LoadOutcome::Missing => true,
            LoadOutcome::Corrupt => false,
        },
    }
}

/// The in-memory entity cache, one record per key, never evicted.
pub struct InventoryStore {
    pub records: Vec<EntityRecord>,
}

impl InventoryStore {
    /// The store invariant: the cache is well formed.
    pub open spec fn wf(self) -> bool {
        store_wf(self.records@)
    }

    /// An empty cache.
    pub fn new() -> (r: InventoryStore)
        ensures
            r.records@ == Seq::<EntityRecord>::empty(),
            r.wf(),
    {
        InventoryStore { records: Vec::new() }
    }

    /// How many records are cached.
    pub fn len(&self) -> (n: usize)
        ensures
            n == self.records@.len(),
    {
        self.records.len()
    }

    /// The cached record at a slot; with `find`, the read side of a handle.
    pub fn record(&self, i: usize) -> (r: &EntityRecord)
        requires
            i < self.records@.len(),
        ensures
            r == self.records@[i as int],
    {
        &self.records[i]
    }

    /// The slot of the cached record for `key`, if the key is cached.
    pub fn find(&self, key: &str) -> (r: Option<usize>)
        ensures
            match r {
                Some(u) => u < self.records@.len() && key_slot(self.records@, key@) == Some(
                    u as int,
                ),
                None => key_slot(self.records@, key@) == None::<int>,
            },
    {
        let key_owned: String = key.to_owned();
        let n: usize = self.records.len();
        let mut k: usize = 0;
        while k < n
            invariant
                n == self.records.len(),
                k <= n,
                key_owned@ == key@,
                forall|j: int| 0 <= j < k ==> (#[trigger] self.records@[j]).key@ != key@,
            decreases n - k,
        {
            if self.records[k].key == key_owned {
                proof {
                    lemma_key_slot_is(self.records@, key@, k as int);
                }
                return Some(k);
            }
            k = k + 1;
        }
        proof {
            lemma_key_slot_none(self.records@, key@);
        }
        None
    }

    /// Get-or-create: return the slot of the one cached record for `key` —
    /// the caller's handle into the cache. A cached key is returned with
    /// the cache untouched, whatever was loaded. For an uncached key the
    /// caller passes what loading the entity's file reported: a loaded
    /// well-formed record for this key is cached as is; a missing file
    /// caches a synthesized default `{key, kind, no items}`; a corrupt
    /// file — or a decoded record with the wrong key or a broken
    /// invariant — is surfaced as a decode error, and nothing is cached.
    pub fn get_or_create(&mut self, key: &str, kind: &str, loaded: LoadOutcome) -> (r: Result<
        usize,
        StoreError,
    >)
        ensures
            r is Ok <==> creates_ok(old(self).records@, key@, loaded),
            match (key_slot(old(self).records@, key@), r) {
                (Some(i), Ok(u)) => u as int == i && *final(self) == *old(self),
                (Some(i), Err(_)) => false,
                (None, Ok(u)) => u as int == old(self).records@.len() && final(self).records@
                    == old(self).records@.push(final(self).records@[u as int]) && final(self).records@[u as int].key@ == key@ && (match loaded {
                    LoadOutcome::Missing => final(self).records@[u as int].kind@ == kind@ && final(self).records@[u as int].items@ == Seq::<InventoryItem>::empty(),
                    LoadOutcome::Loaded(rec) => final(self).records@[u as int] == rec,
                    LoadOutcome::Corrupt => false,
                }),
                (None, Err(e)) => e == StoreError::Decode && *final(self) == *old(self),
            },
            old(self).wf() ==> final(self).wf(),
            r matches Ok(u) ==> key_slot(final(self).records@, key@) == Some(u as int),
    {
        let slot = self.find(key);
        let key_owned: String = key.to_owned();
        proof {
            lemma_key_slot(self.records@, key@);
        }
        match slot {
            Some(i) => Ok(i),
            None => match loaded {
                LoadOutcome::Loaded(rec) => {
                    if rec.is_well_formed() && rec.key == key_owned {
                        let idx: usize = self.records.len();
                        proof {
                            if old(self).wf() {
                                lemma_store_push_wf(self.records@, rec);
                            }
                        }
                        self.records.push(rec);
                        proof {
                            lemma_key_slot_is(self.records@, key@, idx as int);
                        }
                        Ok(idx)
                    } else {
                        Err(StoreError::Decode)
                    }
                },
                LoadOutcome::Missing => {
                    let idx: usize = self.records.len();
                    let rec = EntityRecord::new(key_owned, kind.to_owned());
                    proof {
                        if old(self).wf() {
                            lemma_store_push_wf(self.records@, rec);
                        }
                    }
                    self.records.push(rec);
                    proof {
                        lemma_key_slot_is(self.records@, key@, idx as int);
                    }
                    Ok(idx)
                },
                LoadOutcome::Corrupt => Err(StoreError::Decode),
            },
        }
    }

    /// Cache-and-mutate: get-or-create the record for `key`, then add
    /// `item` to it, merging or appending as `spec_add` says. The returned
    /// slot reads back the mutated record through the same handle the
    /// mutation used (read-your-writes); persisting that record is the
    /// caller's step after this, and a failure there is the caller's to
    /// report — the cache keeps the mutation either way.
    pub fn update(&mut self, key: &str, kind: &str, item: InventoryItem, loaded: LoadOutcome)
        -> (r: Result<usize, StoreError>)
        ensures
            r is Ok <==> creates_ok(old(self).records@, key@, loaded),
            match r {
                Ok(u) => (u as int) < final(self).records@.len() && final(self).records@[u as int].key@ == key@ && final(self).records@[u as int].items@
                    == spec_add(base_items(old(self).records@, key@, loaded), item) && (match
                    key_slot(old(self).records@, key@) {
                    Some(i) => u as int == i && final(self).records@ == old(
                        self,
                    ).records@.update(i, final(self).records@[i]) && final(self).records@[i].kind == old(self).records@[i].kind,
                    None => u as int == old(self).records@.len() && final(self).records@ == old(
                        self,
                    ).records@.push(final(self).records@[u as int]) && (match loaded {
                        LoadOutcome::Missing => final(self).records@[u as int].kind@ == kind@,
                        LoadOutcome::Loaded(rec) => final(self).records@[u as int].kind == rec.kind,
                        LoadOutcome::Corrupt => false,
                    }),
                }),
                Err(e) => e == StoreError::Decode && *final(self) == *old(self),
            },
            old(self).wf() && item.quantity > 0 ==> final(self).wf(),
    {
        let got = self.get_or_create(key, kind, loaded);
        match got {
            Ok(i) => {
                let ghost mid = self.records@;
                let ghost it = item;
                proof {
                    lemma_key_slot(mid, key@);
                }
                let rec_ref = &mut self.records[i];
                rec_ref.add_item(item);
                proof {
                    if old(self).wf() && it.quantity > 0 {
                        assert(mid[i as int].wf());
                        lemma_store_update_wf(mid, i as int, self.records@[i as int]);
                    }
                }
                Ok(i)
            },
            Err(e) => Err(e),
        }
    }
}

} // verus!
