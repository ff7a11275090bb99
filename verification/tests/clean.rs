use fejdit::clean::{clean, Options};
use fejdit::hash::stable_hash;
use fejdit::names::NameTable;
use fejdit::primitives::{ByteArray, CsString};
use fejdit::schema::Schema;
use fejdit::zdo::Zdo;

const COMPONENT_KEYS: &str = "# class\tbase\tkeys\n\
Character\tMonoBehaviour\ttamed,health\n\
Tameable\tMonoBehaviour\tTameTimeLeft\n\
Container\tMonoBehaviour\titems\n\
ItemDrop\tMonoBehaviour\tstack\n\
TreeBase\tMonoBehaviour\thealth\n";

const PREFAB_COMPONENTS: &str = "Beech1\tTreeBase\nBoar\tCharacter,Tameable\npiece_chest_wood\tContainer\nCoins\tItemDrop\n";

fn schema() -> Schema {
    Schema::from_tables(COMPONENT_KEYS, PREFAB_COMPONENTS, "", "", "")
}

fn names() -> NameTable {
    let mut t = NameTable::new();
    for k in ["TameTimeLeft", "tamed", "stack", "items", "SomeMod.m_custom", "health"] {
        t.learn_key(k);
    }
    t.learn("Beech1");
    t.learn("Boar");
    t
}

fn corrupted_beech() -> Zdo {
    let mut z = Zdo::default();
    z.prefab = stable_hash("Beech1");
    z.floats.entries.push((stable_hash("health"), 100.0f32.to_bits()));
    z.floats.entries.push((stable_hash("TameTimeLeft"), 12.0f32.to_bits()));
    z.ints.entries.push((stable_hash("tamed"), 1));
    z.ints.entries.push((stable_hash("stack"), 3));
    z.strings.entries.push((stable_hash("items"), CsString("AAAA".to_string())));
    z.strings.entries.push((stable_hash("SomeMod.m_custom"), CsString("x".to_string())));
    z.ints.entries.push((-123_456_789, 7));
    z.byte_arrays.entries.push((stable_hash("health"), ByteArray { data: vec![1] }));
    z
}

#[test]
fn injected_foreign_keys_are_removed_and_legit_keys_kept() {
    let mut zdos = vec![corrupted_beech()];
    let opts = Options { stale: true, foreign: true, allow_keys: vec![], detailed: true };
    let report = clean(&mut zdos, &names(), &schema(), &opts);
    assert_eq!(report.zdos_scanned, 1);
    assert_eq!(report.zdos_touched, 1);
    assert_eq!(report.by_rule.foreign, 4);
    assert_eq!(report.by_rule.stale, 1, "byte-array health is stale");
    assert_eq!(report.properties_removed, 5);
    let z = &zdos[0];
    assert_eq!(z.property_count(), 3, "health, the mod key and the unknown hash survive");
    assert!(z.strings.contains(stable_hash("SomeMod.m_custom")));
    assert!(z.ints.contains(-123_456_789));
    assert!(!z.ints.contains(stable_hash("tamed")));
    assert!(!z.strings.contains(stable_hash("items")));
    assert_eq!(report.by_prefab_key.len(), 1);
    assert_eq!(report.by_prefab_key[0].prefab, "Beech1");
    let tamed = report.by_prefab_key[0].keys.iter().find(|k| k.name == "int:tamed").unwrap();
    assert_eq!(tamed.count, 1);
    assert!(report.unattributed_keys.iter().any(|k| k.name == "SomeMod.m_custom"));
}

#[test]
fn allow_key_overrides_removal() {
    let mut z = Zdo::default();
    z.prefab = stable_hash("Beech1");
    z.ints.entries.push((stable_hash("tamed"), 1));
    let mut zdos = vec![z];
    let opts = Options { stale: true, foreign: true, allow_keys: vec!["tamed".to_string()], detailed: false };
    let report = clean(&mut zdos, &names(), &schema(), &opts);
    assert_eq!(report.properties_removed, 0);
    assert!(zdos[0].ints.contains(stable_hash("tamed")));
}

#[test]
fn objects_of_unknown_prefabs_are_never_touched() {
    let mut z = corrupted_beech();
    z.prefab = stable_hash("SomeModPrefab");
    let mut zdos = vec![z];
    let opts = Options { stale: false, foreign: true, allow_keys: vec![], detailed: false };
    let report = clean(&mut zdos, &names(), &schema(), &opts);
    assert_eq!(report.unknown_prefab_zdos, 1);
    assert_eq!(report.properties_removed, 0);
}

#[test]
fn a_clean_world_stays_as_it_is() {
    let mut z = Zdo::default();
    z.prefab = stable_hash("Boar");
    z.ints.entries.push((stable_hash("tamed"), 1));
    z.floats.entries.push((stable_hash("TameTimeLeft"), 5.0f32.to_bits()));
    let mut zdos = vec![z];
    let opts = Options { stale: true, foreign: true, allow_keys: vec![], detailed: false };
    let report = clean(&mut zdos, &names(), &schema(), &opts);
    assert_eq!(report.properties_removed, 0);
    assert_eq!(report.zdos_touched, 0);
    assert_eq!(zdos[0].property_count(), 2);
}
