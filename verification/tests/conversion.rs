use base64::Engine as _;
use fejdit::container::{Inventory, Item, LegacyItem, PackageError};
use fejdit::hash::stable_hash;
use fejdit::inventory::{Crafter, SingleItem};
use fejdit::migrate::migrate_zdo;
use fejdit::names::NameTable;
use fejdit::primitives::{Bool, CsString, StringStringEntry, StringStringMap, Vec2i};
use fejdit::versions::{INVENTORY_CURRENT, INVENTORY_PICKED_UP, WORLD_LEGACY_CURRENT};
use fejdit::zdo::Zdo;

/// `(int)(m_durability * 100f)`, the game's conversion.
fn hundredths(bits: u32) -> i32 {
    (f32::from_bits(bits) * 100.0) as i32
}

fn cs(s: &str) -> CsString {
    CsString(s.to_string())
}

fn legacy(name: &str, stack: i32, durability: f32, crafter: Crafter, data: Vec<(&str, &str)>) -> Item {
    Item::Legacy(LegacyItem {
        name: cs(name),
        stack,
        durability: durability.to_bits(),
        grid_pos: Vec2i { x: 0, y: 0 },
        equipped: Bool(name == "SwordIron"),
        quality: Some(if name == "SwordIron" { 2 } else { 1 }),
        variant: Some(0),
        crafter: Some(crafter),
        custom_data: Some(StringStringMap {
            items: data
                .into_iter()
                .map(|(k, v)| StringStringEntry { key: cs(k), value: cs(v) })
                .collect(),
        }),
        world_level: Some(0),
        picked_up: Some(Bool(name == "SwordIron")),
        cheated: None,
    })
}

fn legacy_inventory() -> Inventory {
    Inventory {
        version: INVENTORY_PICKED_UP,
        items: vec![
            legacy("SwordIron", 1, 33.333, Crafter { id: 5, name: cs("Bob") }, vec![("k", "v")]),
            legacy("Wood", 40, 100.0, Crafter { id: 0, name: cs("ignored") }, vec![]),
            // No prefab: `Inventory.LoadOld` never adds it.
            legacy("", 1, 1.0, Crafter { id: 0, name: cs("") }, vec![]),
        ],
    }
}

fn learned(names: &[&str]) -> NameTable {
    let mut t = NameTable::new();
    for n in names {
        t.learn(n);
    }
    t
}

#[test]
fn inventories_convert_to_the_compact_record_and_round_trip() {
    let names = learned(&["SwordIron", "Wood"]);
    let legacy = legacy_inventory();
    let bytes = legacy.to_bytes().unwrap();
    assert_eq!(Inventory::parse(&bytes).unwrap().to_bytes().unwrap(), bytes);

    let compact = legacy.to_compact(&hundredths);
    assert_eq!(compact.version, INVENTORY_CURRENT);
    assert_eq!(compact.items.len(), 2, "the nameless item is dropped");
    let Item::Compact(sword) = &compact.items[0] else {
        panic!("compact record expected")
    };
    assert_eq!(sword.prefab_hash, Some(stable_hash("SwordIron")));
    assert_eq!(sword.durability_hundredths, 3333);
    assert_eq!(sword.quality, Some(2));
    assert_eq!(sword.stack, None);
    assert_eq!(sword.variant, None);
    assert_eq!(sword.crafter.as_ref().map(|c| c.name.0.as_str()), Some("Bob"));
    assert_eq!(sword.custom_data.as_ref().map(|d| d.entries.len()), Some(1));
    assert!(sword.equipped && sword.picked_up);
    assert_eq!(sword.cheated_flags, Some(0));
    let Item::Compact(wood) = &compact.items[1] else {
        panic!("compact record expected")
    };
    assert_eq!(wood.stack, Some(40));
    assert!(wood.crafter.is_none(), "a zero crafter id drops the name too");
    assert!(wood.custom_data.is_none());

    let bytes = compact.to_bytes().unwrap();
    assert_eq!(&bytes[..4], &INVENTORY_CURRENT.to_le_bytes());
    assert_eq!(&bytes[4..6], &2u16.to_le_bytes());
    assert_eq!(Inventory::parse(&bytes).unwrap().to_bytes().unwrap(), bytes);

    for (item, expected) in compact.items.iter().zip(["SwordIron", "Wood"]) {
        assert_eq!(item.name(&names), expected);
    }
    assert_eq!(compact.items[0].quality(), 2);
    assert_eq!(compact.items[1].stack(), 40);
    assert_eq!(compact.items[0].crafter_name(), "Bob");
}

#[test]
fn a_package_is_refused_with_the_reason() {
    let bytes = legacy_inventory().to_bytes().unwrap();
    let mut longer = bytes.clone();
    longer.push(0);
    assert!(matches!(Inventory::parse(&longer), Err(PackageError::TrailingBytes { count: 1 })));
    assert!(matches!(Inventory::parse(&bytes[..bytes.len() - 1]), Err(PackageError::Malformed)));
    assert!(matches!(Inventory::from_base64("@@@"), Err(PackageError::Base64)));
    let text = base64::engine::general_purpose::STANDARD.encode(&bytes);
    assert_eq!(Inventory::from_base64(&text).unwrap().to_bytes().unwrap(), bytes);
}

#[test]
fn migration_rewrites_containers_items_and_prefab_strings() {
    let items = stable_hash("items");
    let mut chest = Zdo::default();
    chest.strings.entries.push((
        items,
        CsString(base64::engine::general_purpose::STANDARD.encode(legacy_inventory().to_bytes().unwrap())),
    ));
    migrate_zdo(&mut chest, WORLD_LEGACY_CURRENT, &hundredths);
    assert!(!chest.strings.contains(items));
    let inv = Inventory::parse(chest.bytes(items).unwrap()).unwrap();
    assert_eq!(
        inv.to_bytes().unwrap(),
        legacy_inventory().to_compact(&hundredths).to_bytes().unwrap()
    );

    let mut loose = Zdo::default();
    loose.ints.entries.push((stable_hash("stack"), 5));
    loose.floats.entries.push((stable_hash("durability"), 50.0f32.to_bits()));
    loose.longs.entries.push((stable_hash("crafterID"), 7));
    loose.strings.entries.push((stable_hash("crafterName"), cs("Ann")));
    loose.ints.entries.push((stable_hash("quality"), 3));
    loose.floats.entries.push((stable_hash("health"), 12.0f32.to_bits()));
    migrate_zdo(&mut loose, WORLD_LEGACY_CURRENT, &hundredths);
    assert_eq!(loose.ints.get(stable_hash("stack")), None);
    assert_eq!(loose.floats.get(stable_hash("durability")), None);
    assert_eq!(loose.longs.get(stable_hash("crafterID")), None);
    assert_eq!(loose.string(stable_hash("crafterName")), None);
    assert_eq!(loose.int_value(stable_hash("quality")), Some(3), "a non-default quality stays");
    assert_eq!(loose.float(stable_hash("health")), Some(12.0f32.to_bits()), "unrelated keys stay");
    let data = SingleItem::parse(loose.bytes(stable_hash("itemData")).unwrap()).unwrap();
    assert_eq!(data.version, INVENTORY_CURRENT as u8);
    assert_eq!(data.item.stack, Some(5));
    assert_eq!(data.item.durability_hundredths, 5000);
    assert_eq!(data.item.quality, Some(3));
    assert_eq!(data.item.crafter.as_ref().map(|c| c.name.0.as_str()), Some("Ann"));
    assert_eq!(data.item.prefab_hash, None);

    let mut armor = Zdo::default();
    armor.strings.entries.push((stable_hash("1_item"), cs("HelmetBronze")));
    armor.floats.entries.push((stable_hash("1_durability"), 300.5f32.to_bits()));
    armor.ints.entries.push((stable_hash("1_stack"), 1));
    armor.ints.entries.push((stable_hash("1_quality"), 2));
    armor.ints.entries.push((stable_hash("1_variant"), 0));
    armor.longs.entries.push((stable_hash("1_crafterID"), 9));
    armor.strings.entries.push((stable_hash("1_crafterName"), cs("Sigrid")));
    armor.ints.entries.push((stable_hash("1_dataCount"), 0));
    armor.ints.entries.push((stable_hash("1_worldLevel"), 0));
    armor.ints.entries.push((stable_hash("1_pickedUp"), 1));
    armor.strings.entries.push((stable_hash("8_item"), cs("ArmorBronzeLegs")));
    armor.floats.entries.push((stable_hash("8_durability"), 100.0f32.to_bits()));
    armor.ints.entries.push((stable_hash("8_stack"), 1));
    armor.ints.entries.push((stable_hash("8_quality"), 1));
    armor.ints.entries.push((stable_hash("pose"), 3));
    migrate_zdo(&mut armor, WORLD_LEGACY_CURRENT, &hundredths);
    let slot = SingleItem::parse(armor.bytes(stable_hash("1_itemData")).unwrap()).unwrap();
    assert_eq!(slot.item.prefab_hash, Some(stable_hash("HelmetBronze")));
    assert_eq!(slot.item.durability_hundredths, 30050);
    assert_eq!(slot.item.quality, Some(2));
    assert_eq!(slot.item.crafter.as_ref().map(|c| c.name.0.as_str()), Some("Sigrid"));
    assert!(slot.item.picked_up);
    assert_eq!(armor.int_value(stable_hash("1_item")), Some(stable_hash("HelmetBronze")));
    assert_eq!(armor.int_value(stable_hash("1_quality")), Some(2), "a non-default quality stays");
    assert_eq!(armor.int_value(stable_hash("1_variant")), None);
    assert_eq!(armor.float(stable_hash("1_durability")), None);
    assert_eq!(armor.string(stable_hash("1_crafterName")), None);
    assert_eq!(armor.int_value(stable_hash("pose")), Some(3), "the stand's own keys stay");
    assert!(armor.bytes(stable_hash("0_itemData")).is_none(), "an empty slot gets no blob");
    let legs = SingleItem::parse(armor.bytes(stable_hash("8_itemData")).unwrap()).unwrap();
    assert_eq!(legs.item.prefab_hash, Some(stable_hash("ArmorBronzeLegs")));
    assert_eq!(legs.item.durability_hundredths, 10000);
    assert_eq!(
        armor.int_value(stable_hash("8_item")),
        Some(stable_hash("ArmorBronzeLegs")),
        "a slot the game leaves as a string is hashed here"
    );
    assert_eq!(armor.string(stable_hash("8_item")), None);

    let mut stand = Zdo::default();
    stand.strings.entries.push((stable_hash("item"), cs("Torch")));
    stand.strings.entries.push((stable_hash("0_item"), cs("")));
    stand.strings.entries.push((stable_hash("1_item"), cs("HelmetBronze")));
    migrate_zdo(&mut stand, WORLD_LEGACY_CURRENT, &hundredths);
    assert!(stand.strings.is_empty());
    assert_eq!(stand.int_value(stable_hash("item")), Some(stable_hash("Torch")));
    assert_eq!(stand.int_value(stable_hash("0_item")), None, "an empty name is just removed");
    assert_eq!(stand.int_value(stable_hash("1_item")), Some(stable_hash("HelmetBronze")));
}
