use fejdit::hash::stable_hash;
use fejdit::inventory::SingleItem;
use fejdit::names::NameTable;
use fejdit::primitives::{CsString, Vec2s, Vec3};
use fejdit::repair::restore_armor_stands;
use fejdit::zdo::{Position, Zdo};

fn hundredths(bits: u32) -> i32 {
    (f32::from_bits(bits) * 100.0) as i32
}

fn cs(s: &str) -> CsString {
    CsString(s.to_string())
}

const SLOTS: [(i32, &str, f32, i32, &str); 3] = [
    (1, "HelmetBronze", 300.5, 2, "Sigrid"),
    (3, "ArmorBronzeChest", 812.25, 3, "Bjorn"),
    (7, "ArmorBronzeLegs", 640.75, 2, "Hrafn"),
];

fn key(slot: i32, name: &str) -> i32 {
    stable_hash(&format!("{slot}_{name}"))
}

fn old_stand() -> Zdo {
    let mut z = Zdo::default();
    z.persistent = true;
    z.sector = Some(Vec2s { x: 2, y: -3 });
    z.position = Position::Exact(Vec3 { x: 100.0f32.to_bits(), y: 0, z: (-200.0f32).to_bits() });
    z.prefab = stable_hash("ArmorStand_Male");
    z.ints.entries.push((stable_hash("pose"), 2));
    z.strings.entries.push((key(0, "item"), cs("")));
    for (slot, item, durability, quality, crafter) in SLOTS {
        z.strings.entries.push((key(slot, "item"), cs(item)));
        z.floats.entries.push((key(slot, "durability"), durability.to_bits()));
        z.ints.entries.push((key(slot, "stack"), 1));
        z.ints.entries.push((key(slot, "quality"), quality));
        z.ints.entries.push((key(slot, "variant"), 0));
        z.longs.entries.push((key(slot, "crafterID"), 77));
        z.strings.entries.push((key(slot, "crafterName"), cs(crafter)));
        z.ints.entries.push((key(slot, "dataCount"), 0));
        z.ints.entries.push((key(slot, "worldLevel"), 0));
        z.ints.entries.push((key(slot, "pickedUp"), 1));
    }
    z
}

/// The stand as the game's conversion leaves it: compact position, slot
/// names below 6 hashed, crafters gone, no item data.
fn new_stand() -> Zdo {
    let mut z = Zdo::default();
    z.persistent = true;
    z.position = Position::Short(Vec2s { x: 100, y: -200 });
    z.prefab = stable_hash("ArmorStand_Male");
    z.ints.entries.push((stable_hash("pose"), 2));
    for (slot, item, durability, quality, _) in SLOTS {
        if slot < 6 {
            z.ints.entries.push((key(slot, "item"), stable_hash(item)));
        } else {
            z.strings.entries.push((key(slot, "item"), cs(item)));
        }
        z.floats.entries.push((key(slot, "durability"), durability.to_bits()));
        z.ints.entries.push((key(slot, "quality"), quality));
    }
    z
}

fn blob(z: &Zdo, slot: i32) -> Option<SingleItem> {
    z.bytes(key(slot, "itemData")).map(|b| SingleItem::parse(b).unwrap())
}

#[test]
fn slots_are_restored_from_the_old_world() {
    let old = vec![old_stand()];
    let mut new = vec![new_stand()];
    let report = restore_armor_stands(&old, 34, &mut new, &NameTable::new(), true, &hundredths);
    assert_eq!(report.old_stands, 1);
    assert_eq!(report.stands_matched, 1);
    assert_eq!(report.stands_unmatched, 0);
    assert_eq!(report.slots_restored, 3);
    assert_eq!(report.slot_items_hashed, 1, "the game hashes no further than 5_item");
    assert_eq!(report.restored.len(), 3);
    let helmet = blob(&new[0], 1).unwrap();
    assert_eq!(helmet.item.prefab_hash, Some(stable_hash("HelmetBronze")));
    assert_eq!(helmet.item.durability_hundredths, 30050);
    assert_eq!(helmet.item.quality, Some(2));
    assert_eq!(helmet.item.crafter.as_ref().map(|c| c.name.0.as_str()), Some("Sigrid"));
    assert!(blob(&new[0], 0).is_none(), "an empty slot gets nothing");
    assert_eq!(new[0].int_value(key(7, "item")), Some(stable_hash("ArmorBronzeLegs")));
    assert_eq!(new[0].string(key(7, "item")), None);
    assert_eq!(new[0].int_value(stable_hash("pose")), Some(2), "the stand's own keys stay");

    // Running it again finds the blobs already there.
    let again = restore_armor_stands(&old, 34, &mut new, &NameTable::new(), false, &hundredths);
    assert_eq!(again.slots_restored, 0);
    assert_eq!(again.slots_already_restored, 3);
    assert!(again.restored.is_empty());
}

#[test]
fn a_moved_stand_is_left_alone() {
    let old = vec![old_stand()];
    let mut moved = new_stand();
    moved.position = Position::Short(Vec2s { x: 101, y: -200 });
    let mut new = vec![moved];
    let report = restore_armor_stands(&old, 34, &mut new, &NameTable::new(), false, &hundredths);
    assert_eq!(report.stands_matched, 0);
    assert_eq!(report.stands_unmatched, 1);
    assert_eq!(report.slots_restored, 0);
    assert!(blob(&new[0], 1).is_none());
}
