//! Round trip through the persisted form: a record rendered as the
//! human-readable structured text of the entity files (field names
//! preserved), read back, equals the original field for field.

use inventory_store::items::InventoryItem;
use inventory_store::record::EntityRecord;

fn to_json(rec: &EntityRecord) -> serde_json::Value {
    let mut items = Vec::new();
    for it in rec.items.iter() {
        let mut obj = serde_json::Map::new();
        obj.insert("id".to_string(), serde_json::Value::String(it.id.clone()));
        obj.insert(
            "quantity".to_string(),
            serde_json::Value::Number(serde_json::Number::from(it.quantity)),
        );
        obj.insert("stackable".to_string(), serde_json::Value::Bool(it.stackable));
        items.push(serde_json::Value::Object(obj));
    }
    let mut root = serde_json::Map::new();
    root.insert("key".to_string(), serde_json::Value::String(rec.key.clone()));
    root.insert("kind".to_string(), serde_json::Value::String(rec.kind.clone()));
    root.insert("items".to_string(), serde_json::Value::Array(items));
    serde_json::Value::Object(root)
}

fn from_json(v: &serde_json::Value) -> EntityRecord {
    let key = v.get("key").unwrap().as_str().unwrap().to_string();
    let kind = v.get("kind").unwrap().as_str().unwrap().to_string();
    let mut items = Vec::new();
    for it in v.get("items").unwrap().as_array().unwrap() {
        items.push(InventoryItem {
            id: it.get("id").unwrap().as_str().unwrap().to_string(),
            quantity: it.get("quantity").unwrap().as_u64().unwrap() as u32,
            stackable: it.get("stackable").unwrap().as_bool().unwrap(),
        });
    }
    EntityRecord { key, kind, items }
}

fn assert_records_equal(a: &EntityRecord, b: &EntityRecord) {
    assert_eq!(a.key, b.key);
    assert_eq!(a.kind, b.kind);
    assert_eq!(a.items.len(), b.items.len());
    for (x, y) in a.items.iter().zip(b.items.iter()) {
        assert_eq!(x.id, y.id);
        assert_eq!(x.quantity, y.quantity);
        assert_eq!(x.stackable, y.stackable);
    }
}

#[test]
fn serialized_record_round_trips() {
    let rec = EntityRecord {
        key: "Merchant".to_string(),
        kind: "Merchant".to_string(),
        items: vec![
            InventoryItem { id: "healing_potion".to_string(), quantity: 10, stackable: true },
            InventoryItem { id: "goblin_knife".to_string(), quantity: 1, stackable: false },
        ],
    };
    let text = serde_json::to_string(&to_json(&rec)).unwrap();
    let parsed: serde_json::Value = serde_json::from_str(&text).unwrap();
    let back = from_json(&parsed);
    assert_records_equal(&rec, &back);
}

#[test]
fn empty_record_round_trips() {
    let rec = EntityRecord {
        key: "PlayerOne".to_string(),
        kind: "player".to_string(),
        items: vec![],
    };
    let text = serde_json::to_string(&to_json(&rec)).unwrap();
    let parsed: serde_json::Value = serde_json::from_str(&text).unwrap();
    let back = from_json(&parsed);
    assert_records_equal(&rec, &back);
}

#[test]
fn canonical_encoding_round_trips() {
    let rec = EntityRecord {
        key: "Merchant".to_string(),
        kind: "Merchant".to_string(),
        items: vec![
            InventoryItem { id: "healing_potion".to_string(), quantity: 10, stackable: true },
            InventoryItem { id: "goblin_knife".to_string(), quantity: 1, stackable: false },
        ],
    };
    let bytes = inventory_store::codec::encode_record(&rec).expect("plain strings encode");
    let back = inventory_store::codec::decode_record(&bytes).expect("the canonical form decodes");
    assert_records_equal(&rec, &back);
}

#[test]
fn empty_record_canonical_round_trip() {
    let rec = EntityRecord {
        key: "PlayerOne".to_string(),
        kind: "player".to_string(),
        items: vec![],
    };
    let bytes = inventory_store::codec::encode_record(&rec).expect("plain strings encode");
    assert_eq!(
        String::from_utf8(bytes.clone()).unwrap(),
        "{\"key\":\"PlayerOne\",\"kind\":\"player\",\"items\":[]}"
    );
    let back = inventory_store::codec::decode_record(&bytes).expect("the canonical form decodes");
    assert_records_equal(&rec, &back);
}

#[test]
fn canonical_encoding_is_exact_json() {
    let rec = EntityRecord {
        key: "Merchant".to_string(),
        kind: "Merchant".to_string(),
        items: vec![InventoryItem {
            id: "healing_potion".to_string(),
            quantity: 10,
            stackable: true,
        }],
    };
    let bytes = inventory_store::codec::encode_record(&rec).expect("plain strings encode");
    let text = String::from_utf8(bytes).unwrap();
    assert_eq!(
        text,
        "{\"key\":\"Merchant\",\"kind\":\"Merchant\",\"items\":[{\"id\":\"healing_potion\",\"quantity\":10,\"stackable\":true}]}"
    );
    let parsed: serde_json::Value = serde_json::from_str(&text).unwrap();
    let back = from_json(&parsed);
    assert_records_equal(&rec, &back);
}

#[test]
fn encoder_refuses_text_it_cannot_frame() {
    let quoted = EntityRecord {
        key: "Player\"One".to_string(),
        kind: "player".to_string(),
        items: vec![],
    };
    assert!(inventory_store::codec::encode_record(&quoted).is_none());
    let newline = EntityRecord {
        key: "PlayerOne".to_string(),
        kind: "pla\nyer".to_string(),
        items: vec![],
    };
    assert!(inventory_store::codec::encode_record(&newline).is_none());
}

#[test]
fn decoder_rejects_malformed_bytes() {
    assert!(inventory_store::codec::decode_record(b"").is_none());
    assert!(inventory_store::codec::decode_record(b"not json at all").is_none());
    assert!(inventory_store::codec::decode_record(b"{\"key\":\"A\",\"kind\":\"b\",\"items\":[").is_none());
    // field order matters in the canonical form
    assert!(
        inventory_store::codec::decode_record(b"{\"kind\":\"b\",\"key\":\"A\",\"items\":[]}").is_none()
    );
    // a quantity with leading zeros is not canonical
    assert!(inventory_store::codec::decode_record(
        b"{\"key\":\"A\",\"kind\":\"b\",\"items\":[{\"id\":\"x\",\"quantity\":007,\"stackable\":true}]}"
    )
    .is_none());
    // trailing bytes after the record are refused
    assert!(
        inventory_store::codec::decode_record(b"{\"key\":\"A\",\"kind\":\"b\",\"items\":[]} ").is_none()
    );
}
