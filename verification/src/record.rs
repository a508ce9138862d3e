//! The Entity Record: the persisted unit. One record holds an entity's key
//! (its unique name), a kind tag ("player", "merchant", ...), and the
//! ordered list of item stacks it owns. Its invariant: every stack holds a
//! positive quantity, and at most one stackable stack exists per item id.

use vstd::prelude::*;

use crate::items::{
    find_slot, items_wf, lemma_add_preserves_wf, lemma_remove_preserves_wf, merge_into,
    spec_add, spec_remove, take_from, InventoryItem,
};

verus! {

/// Persisted state for one entity: key, kind tag, and its item stacks.
#[derive(Clone, Debug)]
pub struct EntityRecord {
    pub key: String,
    pub kind: String,
    pub items: Vec<InventoryItem>,
}

impl EntityRecord {
    /// The record invariant: its item list is well formed.
    pub open spec fn wf(self) -> bool {
        items_wf(self.items@)
    }

    /// A synthesized default record: the given key and kind, no items.
    pub fn new(key: String, kind: String) -> (r: EntityRecord)
        ensures
            r.key == key,
            r.kind == kind,
            r.items@ == Seq::<InventoryItem>::empty(),
            r.wf(),
    {
        EntityRecord { key, kind, items: Vec::new() }
    }

    /// Add a stack: merge its quantity (saturating) into the first
    /// stackable stack with the same id, or append it as a new stack. Key
    /// and kind are untouched; a well-formed record stays well formed when
    /// the added quantity is positive.
    pub fn add_item(&mut self, item: InventoryItem)
        ensures
            final(self).items@ == spec_add(old(self).items@, item),
            final(self).key == old(self).key,
            final(self).kind == old(self).kind,
            old(self).wf() && item.quantity > 0 ==> final(self).wf(),
    {
        proof {
            if old(self).wf() && item.quantity > 0 {
                lemma_add_preserves_wf(old(self).items@, item);
            }
        }
        merge_into(&mut self.items, item);
    }

    /// Remove `quantity` of the item id: an absent id or an insufficient
    /// held quantity fails with no mutation; a held quantity above the
    /// request decrements in place; an exactly met request deletes the
    /// stack. Returns the success flag.
    pub fn remove_item(&mut self, item_id: &str, quantity: u32) -> (r: bool)
        ensures
            final(self).items@ == spec_remove(old(self).items@, item_id@, quantity).0,
            r == spec_remove(old(self).items@, item_id@, quantity).1,
            final(self).key == old(self).key,
            final(self).kind == old(self).kind,
            old(self).wf() ==> final(self).wf(),
            find_slot(old(self).items@, item_id@) is None ==> r == false && final(self).items@
                == old(self).items@,
    {
        proof {
            if old(self).wf() {
                lemma_remove_preserves_wf(old(self).items@, item_id@, quantity);
            }
        }
        let owned: String = item_id.to_owned();
        take_from(&mut self.items, &owned, quantity)
    }

    /// Whether the record invariant holds, decided at run time; used to
    /// validate records read back from storage before caching them.
    pub fn is_well_formed(&self) -> (b: bool)
        ensures
            b == self.wf(),
    {
        let n: usize = self.items.len();
        let mut i: usize = 0;
        while i < n
            invariant
                n == self.items.len(),
                i <= n,
                forall|a: int| 0 <= a < i ==> (#[trigger] self.items@[a]).quantity > 0,
                forall|a: int, b: int|
                    #![trigger self.items@[a], self.items@[b]]
                    0 <= a < b < i && self.items@[a].stackable && self.items@[b].stackable
                        ==> self.items@[a].id@ != self.items@[b].id@,
            decreases n - i,
        {
            if self.items[i].quantity == 0 {
                return false;
            }
            if self.items[i].stackable {
                let mut j: usize = 0;
                while j < i
                    invariant
                        n == self.items.len(),
                        i < n,
                        j <= i,
                        self.items@[i as int].stackable,
                        forall|a: int|
                            0 <= a < j && (#[trigger] self.items@[a]).stackable ==> self.items@[a].id@
                                != self.items@[i as int].id@,
                    decreases i - j,
                {
                    if self.items[j].stackable && self.items[j].id == self.items[i].id {
                        return false;
                    }
                    j = j + 1;
                }
            }
            i = i + 1;
        }
        true
    }
}

} // verus!
