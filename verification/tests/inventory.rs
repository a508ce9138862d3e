use inventory_store::items::InventoryItem;
use inventory_store::manager::{GameManager, Player, NPC};
use inventory_store::record::EntityRecord;
use inventory_store::store::{InventoryStore, LoadOutcome, StoreError};

fn item(id: &str, quantity: u32, stackable: bool) -> InventoryItem {
    InventoryItem { id: id.to_string(), quantity, stackable }
}

fn record(key: &str, kind: &str, items: Vec<InventoryItem>) -> EntityRecord {
    EntityRecord { key: key.to_string(), kind: kind.to_string(), items }
}

#[test]
fn add_same_stackable_id_accumulates() {
    let mut rec = EntityRecord::new("Hero".to_string(), "player".to_string());
    rec.add_item(item("arrow", 5, true));
    rec.add_item(item("arrow", 7, true));
    rec.add_item(item("arrow", 9, true));
    assert_eq!(rec.items.len(), 1);
    assert_eq!(rec.items[0].id, "arrow");
    assert_eq!(rec.items[0].quantity, 21);
    assert!(rec.items[0].stackable);
}

#[test]
fn add_saturates_at_u32_max() {
    let mut rec = EntityRecord::new("Hero".to_string(), "player".to_string());
    rec.add_item(item("gold", u32::MAX - 1, true));
    rec.add_item(item("gold", 5, true));
    assert_eq!(rec.items.len(), 1);
    assert_eq!(rec.items[0].quantity, u32::MAX);
}

#[test]
fn non_stackable_items_append_as_separate_stacks() {
    let mut rec = EntityRecord::new("Smith".to_string(), "merchant".to_string());
    rec.add_item(item("sword", 1, false));
    rec.add_item(item("sword", 1, false));
    assert_eq!(rec.items.len(), 2);
    assert_eq!(rec.items[0].quantity, 1);
    assert_eq!(rec.items[1].quantity, 1);
}

#[test]
fn existing_stackable_stack_decides_the_merge() {
    // The first stack with the id being stackable is what makes an add
    // merge; the added stack's own flag is not consulted.
    let mut rec = EntityRecord::new("Smith".to_string(), "merchant".to_string());
    rec.add_item(item("potion", 3, true));
    rec.add_item(item("potion", 4, false));
    assert_eq!(rec.items.len(), 1);
    assert_eq!(rec.items[0].quantity, 7);
    assert!(rec.items[0].stackable);
}

#[test]
fn remove_twice_from_double_stock_empties_the_stack() {
    let q = 4u32;
    let mut rec = EntityRecord::new("Hero".to_string(), "player".to_string());
    rec.add_item(item("arrow", 2 * q, true));
    assert!(rec.remove_item("arrow", q));
    assert_eq!(rec.items.len(), 1);
    assert_eq!(rec.items[0].quantity, q);
    assert!(rec.remove_item("arrow", q));
    assert!(rec.items.is_empty());
}

#[test]
fn remove_more_than_held_fails_without_mutation() {
    let mut rec = EntityRecord::new("Hero".to_string(), "player".to_string());
    rec.add_item(item("arrow", 2, true));
    assert!(!rec.remove_item("arrow", 3));
    assert_eq!(rec.items.len(), 1);
    assert_eq!(rec.items[0].quantity, 2);
}

#[test]
fn remove_part_of_a_stack_decrements_in_place() {
    let mut rec = EntityRecord::new("Hero".to_string(), "player".to_string());
    rec.add_item(item("arrow", 5, true));
    assert!(rec.remove_item("arrow", 2));
    assert_eq!(rec.items.len(), 1);
    assert_eq!(rec.items[0].quantity, 3);
}

#[test]
fn remove_absent_id_returns_false_and_creates_nothing() {
    let mut rec = EntityRecord::new("Hero".to_string(), "player".to_string());
    rec.add_item(item("apple", 1, true));
    assert!(!rec.remove_item("pear", 1));
    assert_eq!(rec.items.len(), 1);
    assert_eq!(rec.items[0].id, "apple");
}

#[test]
fn remove_on_empty_inventory_returns_false() {
    let mut rec = EntityRecord::new("PlayerOne".to_string(), "player".to_string());
    assert!(!rec.remove_item("gold_pickaxe", 1));
    assert!(rec.items.is_empty());
}

#[test]
fn iron_sword_exact_removal_scenario() {
    let mut rec = EntityRecord::new("AnotherPlayer".to_string(), "player".to_string());
    rec.add_item(item("iron_sword", 2, true));
    assert!(rec.remove_item("iron_sword", 2));
    assert!(rec.items.is_empty());
}

#[test]
fn merchant_scenario() {
    let mut store = InventoryStore::new();
    let key = "Merchant".to_string();
    let kind = "Merchant".to_string();
    let got = store.get_or_create(&key, &kind, LoadOutcome::Missing);
    let idx = got.expect("a missing file synthesizes a default record");
    assert_eq!(store.record(idx).key, "Merchant");
    assert_eq!(store.record(idx).kind, "Merchant");
    assert!(store.record(idx).items.is_empty());
    let upd = store.update(&key, &kind, item("healing_potion", 10, true), LoadOutcome::Missing);
    let idx2 = upd.expect("the cached record accepts the update");
    assert_eq!(idx2, idx);
    let rec = store.record(idx2);
    assert_eq!(rec.items.len(), 1);
    assert_eq!(rec.items[0].id, "healing_potion");
    assert_eq!(rec.items[0].quantity, 10);
    assert!(rec.items[0].stackable);
}

#[test]
fn get_or_create_same_key_yields_one_record() {
    let mut store = InventoryStore::new();
    let key = "PlayerOne".to_string();
    let kind = "player".to_string();
    let first = store.get_or_create(&key, &kind, LoadOutcome::Missing).unwrap();
    let second = store.get_or_create(&key, &kind, LoadOutcome::Missing).unwrap();
    let third = store.get_or_create(&key, &kind, LoadOutcome::Corrupt).unwrap();
    assert_eq!(first, second);
    assert_eq!(first, third);
    assert_eq!(store.len(), 1);
}

#[test]
fn get_or_create_caches_a_loaded_record_as_is() {
    let mut store = InventoryStore::new();
    let rec = record("Goblin Scout", "Enemy", vec![item("goblin_knife", 1, false)]);
    let got = store.get_or_create(
        "Goblin Scout",
        "Enemy",
        LoadOutcome::Loaded(rec),
    );
    let idx = got.expect("a well-formed loaded record is cached");
    let cached = store.record(idx);
    assert_eq!(cached.key, "Goblin Scout");
    assert_eq!(cached.kind, "Enemy");
    assert_eq!(cached.items.len(), 1);
    assert_eq!(cached.items[0].id, "goblin_knife");
}

#[test]
fn corrupt_file_surfaces_a_decode_error() {
    let mut store = InventoryStore::new();
    let got = store.get_or_create(
        "PlayerOne",
        "player",
        LoadOutcome::Corrupt,
    );
    assert!(matches!(got, Err(StoreError::Decode)));
    assert_eq!(store.len(), 0);
}

#[test]
fn loaded_record_with_wrong_key_is_a_decode_error() {
    let mut store = InventoryStore::new();
    let rec = record("SomeoneElse", "player", vec![]);
    let got = store.get_or_create(
        "PlayerOne",
        "player",
        LoadOutcome::Loaded(rec),
    );
    assert!(matches!(got, Err(StoreError::Decode)));
    assert_eq!(store.len(), 0);
}

#[test]
fn loaded_record_with_broken_invariant_is_a_decode_error() {
    let mut store = InventoryStore::new();
    let zero_stack = record("PlayerOne", "player", vec![item("arrow", 0, true)]);
    let got = store.get_or_create(
        "PlayerOne",
        "player",
        LoadOutcome::Loaded(zero_stack),
    );
    assert!(matches!(got, Err(StoreError::Decode)));
    let doubled = record(
        "PlayerOne",
        "player",
        vec![item("arrow", 1, true), item("arrow", 2, true)],
    );
    let got2 = store.get_or_create(
        "PlayerOne",
        "player",
        LoadOutcome::Loaded(doubled),
    );
    assert!(matches!(got2, Err(StoreError::Decode)));
    assert_eq!(store.len(), 0);
}

#[test]
fn update_on_corrupt_load_leaves_the_store_unchanged() {
    let mut store = InventoryStore::new();
    let upd = store.update(
        "PlayerOne",
        "player",
        item("gold_pickaxe", 1, true),
        LoadOutcome::Corrupt,
    );
    assert!(matches!(upd, Err(StoreError::Decode)));
    assert_eq!(store.len(), 0);
}

#[test]
fn update_reads_its_own_write() {
    let mut store = InventoryStore::new();
    let key = "PlayerOne".to_string();
    let kind = "player".to_string();
    let idx = store
        .update(&key, &kind, item("gold_pickaxe", 1, true), LoadOutcome::Missing)
        .unwrap();
    let rec = store.record(idx);
    assert_eq!(rec.key, "PlayerOne");
    assert_eq!(rec.items.len(), 1);
    assert_eq!(rec.items[0].id, "gold_pickaxe");
    assert_eq!(rec.items[0].quantity, 1);
}

#[test]
fn is_well_formed_checks_the_record_invariant() {
    assert!(record("a", "b", vec![]).is_well_formed());
    assert!(record("a", "b", vec![item("x", 1, true), item("x", 1, false)]).is_well_formed());
    assert!(!record("a", "b", vec![item("x", 0, true)]).is_well_formed());
    assert!(!record("a", "b", vec![item("x", 1, true), item("x", 2, true)]).is_well_formed());
}

#[test]
fn find_locates_cached_keys_only() {
    let mut store = InventoryStore::new();
    store
        .get_or_create("A", "player", LoadOutcome::Missing)
        .unwrap();
    assert_eq!(store.find("A"), Some(0));
    assert_eq!(store.find("B"), None);
}

#[test]
fn manager_loads_players_and_npcs_separately() {
    let mut gm = GameManager::new();
    let p = gm
        .load_player("Terraria_Player", LoadOutcome::Missing)
        .unwrap();
    let n = gm.load_npc("Merchant", LoadOutcome::Missing).unwrap();
    assert_eq!(gm.players.len(), 1);
    assert_eq!(gm.npcs.len(), 1);
    assert_eq!(gm.players.record(p).kind, "player");
    assert_eq!(gm.npcs.record(n).kind, "npc");
    let p2 = gm
        .load_player("Terraria_Player", LoadOutcome::Missing)
        .unwrap();
    assert_eq!(p, p2);
    assert_eq!(gm.players.len(), 1);
}

#[test]
fn manager_surfaces_corrupt_player_files() {
    let mut gm = GameManager::new();
    let got = gm.load_player("Terraria_Player", LoadOutcome::Corrupt);
    assert!(matches!(got, Err(StoreError::Decode)));
    assert_eq!(gm.players.len(), 0);
}

#[test]
fn player_add_item_merges_by_id() {
    let mut p = Player { name: "Terraria_Player".to_string(), inventory: Vec::new() };
    p.add_item("Iron Sword", 1);
    p.add_item("Iron Sword", 2);
    assert_eq!(p.inventory.len(), 1);
    assert_eq!(p.inventory[0].id, "Iron Sword");
    assert_eq!(p.inventory[0].quantity, 3);
}

#[test]
fn npc_add_item_appends_new_ids() {
    let mut n = NPC { name: "Merchant".to_string(), inventory: Vec::new() };
    n.add_item("Health Potion", 5);
    n.add_item("Mana Potion", 2);
    assert_eq!(n.inventory.len(), 2);
    assert_eq!(n.inventory[0].id, "Health Potion");
    assert_eq!(n.inventory[0].quantity, 5);
    assert_eq!(n.inventory[1].id, "Mana Potion");
    assert_eq!(n.inventory[1].quantity, 2);
}

#[test]
fn different_keys_are_cached_independently() {
    let mut store = InventoryStore::new();
    store
        .update("PlayerOne", "player", item("gold_pickaxe", 1, true), LoadOutcome::Missing)
        .unwrap();
    store
        .update("AnotherPlayer", "player", item("iron_sword", 2, true), LoadOutcome::Missing)
        .unwrap();
    assert_eq!(store.len(), 2);
    let first = store.find("PlayerOne").unwrap();
    let second = store.find("AnotherPlayer").unwrap();
    assert_ne!(first, second);
    assert_eq!(store.record(first).items[0].id, "gold_pickaxe");
    assert_eq!(store.record(second).items[0].id, "iron_sword");
}
