use fejdit::container::{Inventory, Item};
use fejdit::hash::stable_hash;
use fejdit::inventory::{CompactItem, Crafter};
use fejdit::names::NameTable;
use fejdit::primitives::{ByteArray, CsString};
use fejdit::schema::Schema;
use fejdit::search::{search, Filter, FilterError, Place};
use fejdit::versions::INVENTORY_CURRENT;
use fejdit::zdo::Zdo;

const COMPONENT_KEYS: &str = "# class\tbase\tkeys\n\
ItemDrop\tMonoBehaviour\tstack\n\
Container\tMonoBehaviour\titems\n\
TombStone\tMonoBehaviour\townerName\n\
ItemStand\tMonoBehaviour\titem\n\
ArmorStand\tMonoBehaviour\tpose\n\
TreeBase\tMonoBehaviour\thealth\n";

const PREFAB_COMPONENTS: &str = "Coins\tItemDrop\n\
SwordIron\tItemDrop\n\
piece_chest_wood\tContainer\n\
Player_tombstone\tTombStone,Container\n\
itemstand\tItemStand\n\
ArmorStand_Male\tArmorStand\n\
Beech1\tTreeBase\n";

fn schema() -> Schema {
    Schema::from_tables(COMPONENT_KEYS, PREFAB_COMPONENTS, "", "", "")
}

fn names() -> NameTable {
    let mut t = NameTable::new();
    for n in [
        "Coins",
        "SwordIron",
        "SwordBronze",
        "piece_chest_wood",
        "Player_tombstone",
        "itemstand",
        "ArmorStand_Male",
        "HelmetBronze",
        "Beech1",
        "1_item",
    ] {
        t.learn(n);
    }
    t
}

fn compact(prefab: &str, crafter: Option<&str>) -> CompactItem {
    CompactItem {
        durability_hundredths: 10000,
        grid_x: 0,
        grid_y: 0,
        world_level: 0,
        picked_up: true,
        equipped: false,
        quality: None,
        stack: None,
        variant: None,
        crafter: crafter.map(|c| Crafter { id: 7, name: CsString(c.to_string()) }),
        prefab_hash: Some(stable_hash(prefab)),
        custom_data: None,
        cheated_flags: Some(0),
    }
}

fn object(prefab: &str) -> Zdo {
    let mut z = Zdo::default();
    z.prefab = stable_hash(prefab);
    z
}

fn world() -> Vec<Zdo> {
    let mut chest = object("piece_chest_wood");
    let inv = Inventory {
        version: INVENTORY_CURRENT,
        items: vec![
            Item::Compact(compact("SwordIron", Some("Bob"))),
            Item::Compact(compact("Coins", None)),
        ],
    };
    chest
        .byte_arrays
        .entries
        .push((stable_hash("items"), ByteArray { data: inv.to_bytes().unwrap() }));
    let coins = object("Coins");
    let mut stand = object("itemstand");
    stand.strings.entries.push((stable_hash("item"), CsString("SwordBronze".to_string())));
    let mut armor = object("ArmorStand_Male");
    armor.strings.entries.push((stable_hash("1_item"), CsString("HelmetBronze".to_string())));
    armor
        .strings
        .entries
        .push((stable_hash("1_crafterName"), CsString("Sigrid".to_string())));
    let tree = object("Beech1");
    vec![chest, coins, stand, armor, tree]
}

#[test]
fn a_filter_needs_an_item_or_a_crafter_glob() {
    assert!(matches!(Filter::new(&vec![], None), Err(FilterError::NoFilter)));
    assert!(matches!(
        Filter::new(&vec!["Sword*".to_string(), "[".to_string()], None),
        Err(FilterError::BadGlob { index: 1 })
    ));
    assert!(matches!(
        Filter::new(&vec![], Some("{a")),
        Err(FilterError::BadGlob { index: 0 })
    ));
    assert!(Filter::new(&vec![], Some("*")).is_ok());
}

#[test]
fn filters_match_case_insensitively_and_crafters_narrow() {
    let f = Filter::new(&vec!["sword*".to_string(), "Coins".to_string()], None).unwrap();
    assert!(f.accepts("SwordIron", ""));
    assert!(f.accepts("coins", "Bob"));
    assert!(!f.accepts("Wood", ""));
    let c = Filter::new(&vec![], Some("b*")).unwrap();
    assert!(c.accepts("Anything", "Bob"));
    assert!(!c.accepts("Anything", ""), "an uncrafted item never matches a crafter glob");
    assert!(!c.accepts("Anything", "Ann"));
}

#[test]
fn items_are_found_in_containers_and_on_stands_sorted_by_name() {
    let mut n = names();
    let f = Filter::new(&vec!["Sword*".to_string()], None).unwrap();
    let report = search(&world(), &mut n, &schema(), &f);
    assert_eq!(report.inventories, 1);
    assert_eq!(report.undecodable, 0);
    let rows: Vec<(&str, Place, &str, &str)> = report
        .rows
        .iter()
        .map(|r| (r.item.as_str(), r.place, r.holder.as_str(), r.crafter.as_str()))
        .collect();
    assert_eq!(
        rows,
        vec![
            ("SwordBronze", Place::Stand, "itemstand", ""),
            ("SwordIron", Place::Container, "piece_chest_wood", "Bob"),
        ]
    );
}

#[test]
fn loose_items_objects_and_armor_slots_are_reported() {
    let mut n = names();
    let f = Filter::new(&vec!["Coins".to_string(), "HelmetBronze".to_string(), "Beech1".to_string()], None)
        .unwrap();
    let report = search(&world(), &mut n, &schema(), &f);
    let rows: Vec<(&str, Place, &str)> =
        report.rows.iter().map(|r| (r.item.as_str(), r.place, r.crafter.as_str())).collect();
    assert_eq!(
        rows,
        vec![
            ("Beech1", Place::Object, ""),
            ("Coins", Place::Container, ""),
            ("Coins", Place::Dropped, ""),
            ("HelmetBronze", Place::Stand, "Sigrid"),
        ]
    );
}

#[test]
fn a_crafter_filter_reports_only_crafted_items() {
    let mut n = names();
    let f = Filter::new(&vec![], Some("bob")).unwrap();
    let report = search(&world(), &mut n, &schema(), &f);
    assert_eq!(report.rows.len(), 1);
    assert_eq!(report.rows[0].item, "SwordIron");
    assert_eq!(report.rows[0].crafter, "Bob");
}

#[test]
fn undecodable_inventories_are_counted() {
    let mut chest = object("piece_chest_wood");
    chest.strings.entries.push((stable_hash("items"), CsString("not base64!".to_string())));
    let mut n = names();
    let f = Filter::new(&vec!["*".to_string()], None).unwrap();
    let report = search(&vec![chest], &mut n, &schema(), &f);
    assert_eq!(report.inventories, 0);
    assert_eq!(report.undecodable, 1);
    assert_eq!(report.rows.len(), 1, "the chest itself still matches");
    assert_eq!(report.rows[0].place, Place::Container);
}
