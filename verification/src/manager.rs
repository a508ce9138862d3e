//! The game manager: the entity types of the game data files (players and
//! NPCs, structurally identical but for their tag) and one manager that
//! caches both kinds. Each kind's cache is the unified inventory store, so
//! the get-or-create protocol and the one-record-per-key guarantee are
//! stated once and shared; loading and saving the files is the caller's
//! step, handing load outcomes in and reading records back out.

use vstd::prelude::*;

use crate::items::{
    items_wf, lemma_add_preserves_wf, merge_into, sat_add_u32, stack_slot, InventoryItem,
};
use crate::store::{creates_ok, key_slot, InventoryStore, LoadOutcome, StoreError};

verus! {

/// A player: unique name and the item stacks it owns.
#[derive(Clone, Debug)]
pub struct Player {
    pub name: String,
    pub inventory: Vec<InventoryItem>,
}

/// An NPC: unique name and the item stacks it holds or sells.
#[derive(Clone, Debug)]
pub struct NPC {
    pub name: String,
    pub inventory: Vec<InventoryItem>,
}

impl Player {
    /// The inventory invariant of the items module.
    pub open spec fn wf(self) -> bool {
        items_wf(self.inventory@)
    }

    /// Acquire `quantity` of the item id: merge into the first stackable
    /// stack with that id, or append a new stackable stack of it.
    pub fn add_item(&mut self, item_id: &str, quantity: u32)
        ensures
            final(self).name == old(self).name,
            match stack_slot(old(self).inventory@, item_id@) {
                Some(i) => final(self).inventory@ == old(self).inventory@.update(
                    i,
                    InventoryItem {
                        id: old(self).inventory@[i].id,
                        quantity: sat_add_u32(old(self).inventory@[i].quantity, quantity),
                        stackable: old(self).inventory@[i].stackable,
                    },
                ),
                None => final(self).inventory@.len() == old(self).inventory@.len() + 1 && final(self).inventory@ == old(self).inventory@.push(final(self).inventory@.last()) && final(self).inventory@.last().id@ == item_id@ && final(self).inventory@.last().quantity
                    == quantity && final(self).inventory@.last().stackable,
            },
            old(self).wf() && quantity > 0 ==> final(self).wf(),
    {
        let it = InventoryItem { id: item_id.to_owned(), quantity, stackable: true };
        proof {
            if old(self).wf() && quantity > 0 {
                lemma_add_preserves_wf(old(self).inventory@, it);
            }
        }
        merge_into(&mut self.inventory, it);
    }
}

impl NPC {
    /// The inventory invariant of the items module.
    pub open spec fn wf(self) -> bool {
        items_wf(self.inventory@)
    }

    /// Acquire `quantity` of the item id: merge into the first stackable
    /// stack with that id, or append a new stackable stack of it.
    pub fn add_item(&mut self, item_id: &str, quantity: u32)
        ensures
            final(self).name == old(self).name,
            match stack_slot(old(self).inventory@, item_id@) {
                Some(i) => final(self).inventory@ == old(self).inventory@.update(
                    i,
                    InventoryItem {
                        id: old(self).inventory@[i].id,
                        quantity: sat_add_u32(old(self).inventory@[i].quantity, quantity),
                        stackable: old(self).inventory@[i].stackable,
                    },
                ),
                None => final(self).inventory@.len() == old(self).inventory@.len() + 1 && final(self).inventory@ == old(self).inventory@.push(final(self).inventory@.last()) && final(self).inventory@.last().id@ == item_id@ && final(self).inventory@.last().quantity
                    == quantity && final(self).inventory@.last().stackable,
            },
            old(self).wf() && quantity > 0 ==> final(self).wf(),
    {
        let it = InventoryItem { id: item_id.to_owned(), quantity, stackable: true };
        proof {
            if old(self).wf() && quantity > 0 {
                lemma_add_preserves_wf(old(self).inventory@, it);
            }
        }
        merge_into(&mut self.inventory, it);
    }
}

/// Handles all game entities: one cache of player records and one of NPC
/// records, both the unified inventory store.
pub struct GameManager {
    pub players: InventoryStore,
    pub npcs: InventoryStore,
}

impl GameManager {
    /// Both caches well formed.
    pub open spec fn wf(self) -> bool {
        self.players.wf() && self.npcs.wf()
    }

    /// Empty caches for both kinds.
    pub fn new() -> (r: GameManager)
        ensures
            r.players.records@ == Seq::<crate::record::EntityRecord>::empty(),
            r.npcs.records@ == Seq::<crate::record::EntityRecord>::empty(),
            r.wf(),
    {
        GameManager { players: InventoryStore::new(), npcs: InventoryStore::new() }
    }

    /// The decision step of loading a player: get-or-create the player's
    /// record against the player cache, with kind tag "player". The caller
    /// reads the file and hands in the outcome; the NPC cache is untouched.
    pub fn load_player(&mut self, name: &str, loaded: LoadOutcome) -> (r: Result<
        usize,
        StoreError,
    >)
        ensures
            final(self).npcs == old(self).npcs,
            r is Ok <==> creates_ok(old(self).players.records@, name@, loaded),
            match (key_slot(old(self).players.records@, name@), r) {
                (Some(i), Ok(u)) => u as int == i && *final(self) == *old(self),
                (Some(i), Err(_)) => false,
                (None, Ok(u)) => u as int == old(self).players.records@.len() && final(self).players.records@ == old(self).players.records@.push(
                    final(self).players.records@[u as int],
                ) && final(self).players.records@[u as int].key@ == name@ && (match loaded {
                    LoadOutcome::Missing => final(self).players.records@[u as int].kind@
                        == "player"@ && final(self).players.records@[u as int].items@ == Seq::<
                        InventoryItem,
                    >::empty(),
                    LoadOutcome::Loaded(rec) => final(self).players.records@[u as int] == rec,
                    LoadOutcome::Corrupt => false,
                }),
                (None, Err(e)) => e == StoreError::Decode && *final(self) == *old(self),
            },
            old(self).wf() ==> final(self).wf(),
            r matches Ok(u) ==> key_slot(final(self).players.records@, name@) == Some(u as int),
    {
        let kind: String = "player".to_owned();
        self.players.get_or_create(name, &kind, loaded)
    }

    /// The decision step of loading an NPC: get-or-create the NPC's record
    /// against the NPC cache, with kind tag "npc". The caller reads the
    /// file and hands in the outcome; the player cache is untouched.
    pub fn load_npc(&mut self, name: &str, loaded: LoadOutcome) -> (r: Result<
        usize,
        StoreError,
    >)
        ensures
            final(self).players == old(self).players,
            r is Ok <==> creates_ok(old(self).npcs.records@, name@, loaded),
            match (key_slot(old(self).npcs.records@, name@), r) {
                (Some(i), Ok(u)) => u as int == i && *final(self) == *old(self),
                (Some(i), Err(_)) => false,
                (None, Ok(u)) => u as int == old(self).npcs.records@.len() && final(self).npcs.records@ == old(self).npcs.records@.push(
                    final(self).npcs.records@[u as int],
                ) && final(self).npcs.records@[u as int].key@ == name@ && (match loaded {
                    LoadOutcome::Missing => final(self).npcs.records@[u as int].kind@ == "npc"@
                        && final(self).npcs.records@[u as int].items@ == Seq::<
                        InventoryItem,
                    >::empty(),
                    LoadOutcome::Loaded(rec) => final(self).npcs.records@[u as int] == rec,
                    LoadOutcome::Corrupt => false,
                }),
                (None, Err(e)) => e == StoreError::Decode && *final(self) == *old(self),
            },
            old(self).wf() ==> final(self).wf(),
            r matches Ok(u) ==> key_slot(final(self).npcs.records@, name@) == Some(u as int),
    {
        let kind: String = "npc".to_owned();
        self.npcs.get_or_create(name, &kind, loaded)
    }
}

} // verus!
