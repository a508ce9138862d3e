//! Item stacks and the merge/decrement logic shared by every inventory in
//! the crate: adding a stack merges it into an existing stackable stack with
//! the same id (first match) or appends it, and removing a quantity
//! decrements, deletes the stack when it reaches zero, or fails without
//! mutation when the id is absent or the quantity held is insufficient.
//! Two design choices, written down here because the behaviour could go
//! either way: a non-stackable stack is appended as its own entry with the
//! quantity it was given, never merged and never split into quantity-one
//! stacks; and a quantity sum past `u32::MAX` saturates there rather than
//! wrapping or failing.

use vstd::prelude::*;

verus! {

/// One stack of a single item kind: its identifier, how many are held, and
/// whether later acquisitions of the same identifier merge into this stack.
#[derive(Clone, Debug)]
pub struct InventoryItem {
    pub id: String,
    pub quantity: u32,
    pub stackable: bool,
}

/// Whether `it` is a stack that an add of id `id` merges into.
pub open spec fn is_stack_match(it: InventoryItem, id: Seq<char>) -> bool {
    it.id@ == id && it.stackable
}

/// Whether `it` holds the item id `id` (stackable or not).
pub open spec fn is_id_match(it: InventoryItem, id: Seq<char>) -> bool {
    it.id@ == id
}

/// First position holding a stack that an add of id `id` merges into.
pub open spec fn stack_slot(items: Seq<InventoryItem>, id: Seq<char>) -> Option<int>
    decreases items.len(),
{
    if items.len() == 0 {
        None
    } else if is_stack_match(items[0], id) {
        Some(0int)
    } else {
        match stack_slot(items.skip(1), id) {
            None => None,
            Some(i) => Some(i + 1),
        }
    }
}

/// First position holding the item id `id`, stackable or not.
pub open spec fn find_slot(items: Seq<InventoryItem>, id: Seq<char>) -> Option<int>
    decreases items.len(),
{
    if items.len() == 0 {
        None
    } else if is_id_match(items[0], id) {
        Some(0int)
    } else {
        match find_slot(items.skip(1), id) {
            None => None,
            Some(i) => Some(i + 1),
        }
    }
}

/// Total quantity of item id `id` held across all stacks.
pub open spec fn qty_of(items: Seq<InventoryItem>, id: Seq<char>) -> int
    decreases items.len(),
{
    if items.len() == 0 {
        0
    } else {
        (if is_id_match(items[0], id) {
            items[0].quantity as int
        } else {
            0int
        }) + qty_of(items.skip(1), id)
    }
}

/// Saturating addition on quantities: a sum past `u32::MAX` stops there
/// rather than wrapping.
pub open spec fn sat_add_u32(a: u32, b: u32) -> u32 {
    if a + b > u32::MAX {
        u32::MAX
    } else {
        (a + b) as u32
    }
}

/// The stack left after merging `item` into the existing stack `curr`: the
/// identity of `curr` is kept, the quantities add (saturating).
pub open spec fn merged(curr: InventoryItem, item: InventoryItem) -> InventoryItem {
    InventoryItem { id: curr.id, quantity: sat_add_u32(curr.quantity, item.quantity), stackable: curr.stackable }
}

/// The item list after an add: merge into the first stackable stack with the
/// same id if one exists, otherwise append.
pub open spec fn spec_add(items: Seq<InventoryItem>, item: InventoryItem) -> Seq<InventoryItem> {
    match stack_slot(items, item.id@) {
        Some(i) => items.update(i, merged(items[i], item)),
        None => items.push(item),
    }
}

/// The item list and the success flag after a remove of `q` of id `id`:
/// absent id or insufficient quantity fails without mutation; a held
/// quantity above `q` decrements in place; a held quantity of exactly `q`
/// deletes the stack.
pub open spec fn spec_remove(items: Seq<InventoryItem>, id: Seq<char>, q: u32) -> (Seq<InventoryItem>, bool) {
    match find_slot(items, id) {
        None => (items, false),
        Some(i) => {
            if items[i].quantity > q {
                (
                    items.update(
                        i,
                        InventoryItem {
                            id: items[i].id,
                            quantity: (items[i].quantity - q) as u32,
                            stackable: items[i].stackable,
                        },
                    ),
                    true,
                )
            } else if items[i].quantity == q {
                (items.remove(i), true)
            } else {
                (items, false)
            }
        },
    }
}

/// Well-formedness of an item list: every stack holds a positive quantity
/// (a stack reaching zero is removed, never retained), and at most one
/// stackable stack exists per distinct item id.
pub open spec fn items_wf(items: Seq<InventoryItem>) -> bool {
    &&& forall|i: int| 0 <= i < items.len() ==> (#[trigger] items[i]).quantity > 0
    &&& forall|i: int, j: int|
        #![trigger items[i], items[j]]
        0 <= i < j < items.len() && items[i].stackable && items[j].stackable ==> items[i].id@ != items[j].id@
}

/// `stack_slot` returns the first merge slot: the slot matches and nothing
/// before it does; `None` means nothing matches at all.
pub proof fn lemma_stack_slot(items: Seq<InventoryItem>, id: Seq<char>)
    ensures
        match stack_slot(items, id) {
            Some(i) => 0 <= i < items.len() && is_stack_match(items[i], id) && (forall|j: int|
                0 <= j < i ==> !is_stack_match(#[trigger] items[j], id)),
            None => forall|j: int| 0 <= j < items.len() ==> !is_stack_match(#[trigger] items[j], id),
        },
    decreases items.len(),
{
    if items.len() == 0 {
    } else if is_stack_match(items[0], id) {
    } else {
        lemma_stack_slot(items.skip(1), id);
        match stack_slot(items.skip(1), id) {
            Some(i) => {
                assert(items.skip(1)[i] == items[i + 1]);
                assert forall|j: int| 0 <= j < i + 1 implies !is_stack_match(#[trigger] items[j], id) by {
                    if j > 0 {
                        assert(items.skip(1)[j - 1] == items[j]);
                    }
                }
            },
            None => {
                assert forall|j: int| 0 <= j < items.len() implies !is_stack_match(
                    #[trigger] items[j],
                    id,
                ) by {
                    if j > 0 {
                        assert(items.skip(1)[j - 1] == items[j]);
                    }
                }
            },
        }
    }
}

/// Converse of `lemma_stack_slot`: a matching slot with no match before it
/// is the one `stack_slot` returns.
pub proof fn lemma_stack_slot_is(items: Seq<InventoryItem>, id: Seq<char>, i: int)
    requires
        0 <= i < items.len(),
        is_stack_match(items[i], id),
        forall|j: int| 0 <= j < i ==> !is_stack_match(#[trigger] items[j], id),
    ensures
        stack_slot(items, id) == Some(i),
    decreases items.len(),
{
    if i == 0 {
    } else {
        assert(forall|j: int| 0 <= j < items.len() - 1 ==> #[trigger] items.skip(1)[j] == items[j + 1]);
        lemma_stack_slot_is(items.skip(1), id, i - 1);
    }
}

/// When nothing matches, `stack_slot` returns `None`.
pub proof fn lemma_stack_slot_none(items: Seq<InventoryItem>, id: Seq<char>)
    requires
        forall|j: int| 0 <= j < items.len() ==> !is_stack_match(#[trigger] items[j], id),
    ensures
        stack_slot(items, id) == None::<int>,
    decreases items.len(),
{
    if items.len() == 0 {
    } else {
        assert(forall|j: int| 0 <= j < items.len() - 1 ==> #[trigger] items.skip(1)[j] == items[j + 1]);
        lemma_stack_slot_none(items.skip(1), id);
    }
}

/// `find_slot` returns the first slot holding the id, and `None` only when
/// the id is absent.
pub proof fn lemma_find_slot(items: Seq<InventoryItem>, id: Seq<char>)
    ensures
        match find_slot(items, id) {
            Some(i) => 0 <= i < items.len() && is_id_match(items[i], id) && (forall|j: int|
                0 <= j < i ==> !is_id_match(#[trigger] items[j], id)),
            None => forall|j: int| 0 <= j < items.len() ==> !is_id_match(#[trigger] items[j], id),
        },
    decreases items.len(),
{
    if items.len() == 0 {
    } else if is_id_match(items[0], id) {
    } else {
        lemma_find_slot(items.skip(1), id);
        match find_slot(items.skip(1), id) {
            Some(i) => {
                assert(items.skip(1)[i] == items[i + 1]);
                assert forall|j: int| 0 <= j < i + 1 implies !is_id_match(#[trigger] items[j], id) by {
                    if j > 0 {
                        assert(items.skip(1)[j - 1] == items[j]);
                    }
                }
            },
            None => {
                assert forall|j: int| 0 <= j < items.len() implies !is_id_match(
                    #[trigger] items[j],
                    id,
                ) by {
                    if j > 0 {
                        assert(items.skip(1)[j - 1] == items[j]);
                    }
                }
            },
        }
    }
}

/// Converse of `lemma_find_slot`: a slot holding the id with no earlier such
/// slot is the one `find_slot` returns.
pub proof fn lemma_find_slot_is(items: Seq<InventoryItem>, id: Seq<char>, i: int)
    requires
        0 <= i < items.len(),
        is_id_match(items[i], id),
        forall|j: int| 0 <= j < i ==> !is_id_match(#[trigger] items[j], id),
    ensures
        find_slot(items, id) == Some(i),
    decreases items.len(),
{
    if i == 0 {
    } else {
        assert(forall|j: int| 0 <= j < items.len() - 1 ==> #[trigger] items.skip(1)[j] == items[j + 1]);
        lemma_find_slot_is(items.skip(1), id, i - 1);
    }
}

/// When the id is absent, `find_slot` returns `None`.
pub proof fn lemma_find_slot_none(items: Seq<InventoryItem>, id: Seq<char>)
    requires
        forall|j: int| 0 <= j < items.len() ==> !is_id_match(#[trigger] items[j], id),
    ensures
        find_slot(items, id) == None::<int>,
    decreases items.len(),
{
    if items.len() == 0 {
    } else {
        assert(forall|j: int| 0 <= j < items.len() - 1 ==> #[trigger] items.skip(1)[j] == items[j + 1]);
        lemma_find_slot_none(items.skip(1), id);
    }
}

/// First merge slot for id `id` in `items`, or `None` if no stackable stack
/// holds that id.
fn find_stack_slot(items: &Vec<InventoryItem>, id: &String) -> (r: Option<usize>)
    ensures
        match r {
            Some(u) => u < items.len() && stack_slot(items@, id@) == Some(u as int),
            None => stack_slot(items@, id@) == None::<int>,
        },
{
    let n: usize = items.len();
    let mut k: usize = 0;
    while k < n
        invariant
            n == items.len(),
            k <= n,
            forall|j: int| 0 <= j < k ==> !is_stack_match(#[trigger] items@[j], id@),
        decreases n - k,
    {
        if items[k].stackable && items[k].id == *id {
            proof {
                lemma_stack_slot_is(items@, id@, k as int);
            }
            return Some(k);
        }
        k = k + 1;
    }
    proof {
        lemma_stack_slot_none(items@, id@);
    }
    None
}

/// First slot holding id `id` in `items`, stackable or not.
fn find_id_slot(items: &Vec<InventoryItem>, id: &String) -> (r: Option<usize>)
    ensures
        match r {
            Some(u) => u < items.len() && find_slot(items@, id@) == Some(u as int),
            None => find_slot(items@, id@) == None::<int>,
        },
{
    let n: usize = items.len();
    let mut k: usize = 0;
    while k < n
        invariant
            n == items.len(),
            k <= n,
            forall|j: int| 0 <= j < k ==> !is_id_match(#[trigger] items@[j], id@),
        decreases n - k,
    {
        if items[k].id == *id {
            proof {
                lemma_find_slot_is(items@, id@, k as int);
            }
            return Some(k);
        }
        k = k + 1;
    }
    proof {
        lemma_find_slot_none(items@, id@);
    }
    None
}

/// Add `item` to the list: merge its quantity (saturating) into the first
/// stackable stack with the same id, or append it as a new stack.
pub fn merge_into(items: &mut Vec<InventoryItem>, item: InventoryItem)
    ensures
        final(items)@ == spec_add(old(items)@, item),
{
    let slot = find_stack_slot(items, &item.id);
    match slot {
        Some(i) => {
            let have: u32 = items[i].quantity;
            let newq: u32 = if have > u32::MAX - item.quantity {
                u32::MAX
            } else {
                have + item.quantity
            };
            let slot_ref = &mut items[i];
            slot_ref.quantity = newq;
        },
        None => {
            items.push(item);
        },
    }
}

/// Remove `quantity` of id `id` from the list, as `spec_remove` says:
/// returns whether anything was removed.
pub fn take_from(items: &mut Vec<InventoryItem>, id: &String, quantity: u32) -> (r: bool)
    ensures
        final(items)@ == spec_remove(old(items)@, id@, quantity).0,
        r == spec_remove(old(items)@, id@, quantity).1,
{
    let slot = find_id_slot(items, id);
    match slot {
        Some(i) => {
            let have: u32 = items[i].quantity;
            if have > quantity {
                let slot_ref = &mut items[i];
                slot_ref.quantity = have - quantity;
                true
            } else if have == quantity {
                items.remove(i);
                true
            } else {
                false
            }
        },
        None => false,
    }
}

/// An add keeps an item list well formed: the merged or appended stack is
/// positive, and no second stackable stack of the added id appears.
pub proof fn lemma_add_preserves_wf(items: Seq<InventoryItem>, item: InventoryItem)
    requires
        items_wf(items),
        item.quantity > 0,
    ensures
        items_wf(spec_add(items, item)),
{
    lemma_stack_slot(items, item.id@);
    let res = spec_add(items, item);
    match stack_slot(items, item.id@) {
        Some(i) => {
            assert forall|k: int| 0 <= k < res.len() implies (#[trigger] res[k]).quantity > 0 by {
                assert(items[k].quantity > 0);
            }
            assert forall|a: int, b: int|
                #![trigger res[a], res[b]]
                0 <= a < b < res.len() && res[a].stackable && res[b].stackable implies res[a].id@
                != res[b].id@ by {
                assert(res[a].id@ == items[a].id@ && res[a].stackable == items[a].stackable);
                assert(res[b].id@ == items[b].id@ && res[b].stackable == items[b].stackable);
            }
        },
        None => {
            assert forall|k: int| 0 <= k < res.len() implies (#[trigger] res[k]).quantity > 0 by {
                if k < items.len() {
                    assert(items[k].quantity > 0);
                }
            }
            assert forall|a: int, b: int|
                #![trigger res[a], res[b]]
                0 <= a < b < res.len() && res[a].stackable && res[b].stackable implies res[a].id@
                != res[b].id@ by {
                if b < items.len() {
                    assert(res[a] == items[a] && res[b] == items[b]);
                } else {
                    assert(res[a] == items[a] && res[b] == item);
                    assert(!is_stack_match(items[a], item.id@));
                }
            }
        },
    }
}

/// A remove keeps an item list well formed: a decremented stack stays
/// positive, and deleting a stack cannot duplicate an id.
pub proof fn lemma_remove_preserves_wf(items: Seq<InventoryItem>, id: Seq<char>, q: u32)
    requires
        items_wf(items),
    ensures
        items_wf(spec_remove(items, id, q).0),
{
    lemma_find_slot(items, id);
    let res = spec_remove(items, id, q).0;
    match find_slot(items, id) {
        Some(i) => {
            if items[i].quantity > q {
                assert forall|k: int| 0 <= k < res.len() implies (#[trigger] res[k]).quantity > 0 by {
                    assert(items[k].quantity > 0);
                }
                assert forall|a: int, b: int|
                    #![trigger res[a], res[b]]
                    0 <= a < b < res.len() && res[a].stackable && res[b].stackable implies res[a].id@
                    != res[b].id@ by {
                    assert(res[a].id@ == items[a].id@ && res[a].stackable == items[a].stackable);
                    assert(res[b].id@ == items[b].id@ && res[b].stackable == items[b].stackable);
                }
            } else if items[i].quantity == q {
                assert forall|k: int| 0 <= k < res.len() implies (#[trigger] res[k]).quantity > 0 by {
                    if k < i {
                        assert(res[k] == items[k]);
                    } else {
                        assert(res[k] == items[k + 1]);
                    }
                }
                assert forall|a: int, b: int|
                    #![trigger res[a], res[b]]
                    0 <= a < b < res.len() && res[a].stackable && res[b].stackable implies res[a].id@
                    != res[b].id@ by {
                    let a0 = if a < i { a } else { a + 1 };
                    let b0 = if b < i { b } else { b + 1 };
                    assert(res[a] == items[a0] && res[b] == items[b0]);
                }
            }
        },
        None => {},
    }
}

/// Total quantity of added stacks, used to state accumulation.
pub open spec fn total_qty(adds: Seq<InventoryItem>) -> int
    decreases adds.len(),
{
    if adds.len() == 0 {
        0
    } else {
        adds[0].quantity + total_qty(adds.skip(1))
    }
}

/// The item list after adding each stack of `adds` in turn.
pub open spec fn add_all(items: Seq<InventoryItem>, adds: Seq<InventoryItem>) -> Seq<InventoryItem>
    decreases adds.len(),
{
    if adds.len() == 0 {
        items
    } else {
        add_all(spec_add(items, adds[0]), adds.skip(1))
    }
}

/// A held total is never negative.
pub proof fn lemma_qty_nonneg(items: Seq<InventoryItem>, id: Seq<char>)
    ensures
        qty_of(items, id) >= 0,
    decreases items.len(),
{
    if items.len() > 0 {
        lemma_qty_nonneg(items.skip(1), id);
    }
}

/// A sum of added quantities is never negative.
pub proof fn lemma_total_qty_nonneg(adds: Seq<InventoryItem>)
    ensures
        total_qty(adds) >= 0,
    decreases adds.len(),
{
    if adds.len() > 0 {
        lemma_total_qty_nonneg(adds.skip(1));
    }
}

/// The held total of an id is at least the quantity of any one stack of it.
pub proof fn lemma_qty_at_least_slot(items: Seq<InventoryItem>, id: Seq<char>, i: int)
    requires
        0 <= i < items.len(),
        is_id_match(items[i], id),
    ensures
        qty_of(items, id) >= items[i].quantity,
    decreases items.len(),
{
    lemma_qty_nonneg(items.skip(1), id);
    if i > 0 {
        assert(items.skip(1)[i - 1] == items[i]);
        lemma_qty_at_least_slot(items.skip(1), id, i - 1);
        lemma_qty_diff_head(items, id);
    }
}

/// Unfolding helper: the head stack contributes its quantity when it holds
/// the id, nothing otherwise.
pub proof fn lemma_qty_diff_head(items: Seq<InventoryItem>, id: Seq<char>)
    requires
        items.len() > 0,
    ensures
        qty_of(items, id) == qty_of(items.skip(1), id) + (if is_id_match(items[0], id) {
            items[0].quantity as int
        } else {
            0int
        }),
{
}

/// Appending a stack raises the held total of its id by its quantity and
/// leaves every other total unchanged.
pub proof fn lemma_qty_push(items: Seq<InventoryItem>, item: InventoryItem, id: Seq<char>)
    ensures
        qty_of(items.push(item), id) == qty_of(items, id) + (if is_id_match(item, id) {
            item.quantity as int
        } else {
            0int
        }),
    decreases items.len(),
{
    if items.len() == 0 {
        assert(items.push(item)[0] == item);
        assert(items.push(item).skip(1) =~= Seq::<InventoryItem>::empty());
        assert(qty_of(items.push(item).skip(1), id) == 0);
        lemma_qty_diff_head(items.push(item), id);
    } else {
        assert(items.push(item)[0] == items[0]);
        assert(items.push(item).skip(1) =~= items.skip(1).push(item));
        lemma_qty_push(items.skip(1), item, id);
        lemma_qty_diff_head(items.push(item), id);
        lemma_qty_diff_head(items, id);
    }
}

/// Replacing one stack shifts the held total by the difference of the old
/// and new contributions of that slot.
pub proof fn lemma_qty_update(items: Seq<InventoryItem>, i: int, it2: InventoryItem, id: Seq<char>)
    requires
        0 <= i < items.len(),
    ensures
        qty_of(items.update(i, it2), id) == qty_of(items, id) - (if is_id_match(items[i], id) {
            items[i].quantity as int
        } else {
            0int
        }) + (if is_id_match(it2, id) {
            it2.quantity as int
        } else {
            0int
        }),
    decreases items.len(),
{
    if i == 0 {
        assert(items.update(0, it2)[0] == it2);
        assert(items.update(0, it2).skip(1) =~= items.skip(1));
    } else {
        assert(items.update(i, it2)[0] == items[0]);
        assert(items.update(i, it2).skip(1) =~= items.skip(1).update(i - 1, it2));
        assert(items.skip(1)[i - 1] == items[i]);
        lemma_qty_update(items.skip(1), i - 1, it2, id);
    }
}

/// One add of a stack of id `id` raises the held total of that id by
/// exactly the added quantity, merged or appended, as long as the new total
/// stays within `u32::MAX` (past it the saturating add would cap the stack).
pub proof fn lemma_add_qty(items: Seq<InventoryItem>, item: InventoryItem, id: Seq<char>)
    requires
        item.id@ == id,
        qty_of(items, id) + item.quantity <= u32::MAX,
    ensures
        qty_of(spec_add(items, item), id) == qty_of(items, id) + item.quantity,
{
    lemma_stack_slot(items, item.id@);
    match stack_slot(items, item.id@) {
        Some(i) => {
            lemma_qty_at_least_slot(items, id, i);
            assert(items[i].quantity + item.quantity <= u32::MAX);
            lemma_qty_update(items, i, merged(items[i], item), id);
        },
        None => {
            lemma_qty_push(items, item, id);
        },
    }
}

/// Accumulation law: after any sequence of adds of stacks all holding one
/// item id, the held total of that id has grown by exactly the sum of the
/// added quantities — as long as that sum stays within `u32::MAX`, where
/// the saturating add would cap it instead.
pub proof fn lemma_adds_accumulate(items: Seq<InventoryItem>, adds: Seq<InventoryItem>, id: Seq<char>)
    requires
        forall|k: int| 0 <= k < adds.len() ==> is_id_match(#[trigger] adds[k], id),
        qty_of(items, id) + total_qty(adds) <= u32::MAX,
    ensures
        qty_of(add_all(items, adds), id) == qty_of(items, id) + total_qty(adds),
    decreases adds.len(),
{
    if adds.len() > 0 {
        lemma_total_qty_nonneg(adds.skip(1));
        lemma_add_qty(items, adds[0], id);
        assert(forall|k: int|
            0 <= k < adds.len() - 1 ==> #[trigger] adds.skip(1)[k] == adds[k + 1]);
        lemma_adds_accumulate(spec_add(items, adds[0]), adds.skip(1), id);
    }
}

/// Double-decrement law: on a freshly stocked single stack holding `2 * q`
/// of an id, removing `q` succeeds, removing `q` again succeeds, and the id
/// is then absent — the stack is deleted, not kept at zero.
pub proof fn lemma_remove_twice_empties(items: Seq<InventoryItem>, id: Seq<char>, q: u32, i: int)
    requires
        0 <= i < items.len(),
        is_id_match(items[i], id),
        items[i].quantity == 2 * q,
        q > 0,
        forall|j: int| 0 <= j < items.len() && j != i ==> !is_id_match(#[trigger] items[j], id),
    ensures
        spec_remove(items, id, q).1,
        spec_remove(spec_remove(items, id, q).0, id, q).1,
        find_slot(spec_remove(spec_remove(items, id, q).0, id, q).0, id) is None,
{
    lemma_find_slot_is(items, id, i);
    let items1 = spec_remove(items, id, q).0;
    assert(items1 == items.update(i, InventoryItem { id: items[i].id, quantity: q, stackable: items[i].stackable }));
    assert forall|j: int| 0 <= j < items1.len() && j != i implies !is_id_match(
        #[trigger] items1[j],
        id,
    ) by {
        assert(items1[j] == items[j]);
    }
    lemma_find_slot_is(items1, id, i);
    let items2 = spec_remove(items1, id, q).0;
    assert(items2 == items1.remove(i));
    assert forall|j: int| 0 <= j < items2.len() implies !is_id_match(#[trigger] items2[j], id) by {
        if j < i {
            assert(items2[j] == items1[j]);
        } else {
            assert(items2[j] == items1[j + 1]);
        }
    }
    lemma_find_slot_none(items2, id);
}

/// Absent-id law: removing any quantity of an id held by no stack fails and
/// never creates or changes a stack.
pub proof fn lemma_remove_absent(items: Seq<InventoryItem>, id: Seq<char>, q: u32)
    requires
        forall|j: int| 0 <= j < items.len() ==> !is_id_match(#[trigger] items[j], id),
    ensures
        spec_remove(items, id, q) == (items, false),
{
    lemma_find_slot_none(items, id);
}

} // verus!
