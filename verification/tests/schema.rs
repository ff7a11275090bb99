use fejdit::hash::stable_hash;
use fejdit::schema::{Pattern, Schema, Verdict};

#[test]
fn patterns_match_digits_and_wildcards() {
    assert!(Pattern("#_durability".into()).matches("3_durability"));
    assert!(!Pattern("#_durability".into()).matches("_durability"));
    assert!(Pattern("slot#".into()).matches("slot12"));
    assert!(!Pattern("slot#".into()).matches("slotstatus1"));
    assert!(Pattern("b_*".into()).matches("b_Greydwarf21"));
    assert!(Pattern("*.m_*".into()).matches("WearNTear.m_health"));
}

#[test]
fn pattern_digits_need_at_least_one_and_may_be_many() {
    assert!(Pattern("#".into()).matches("0"));
    assert!(Pattern("#".into()).matches("0123456789"));
    assert!(!Pattern("#".into()).matches(""));
    assert!(!Pattern("#".into()).matches("1a"));
    assert!(Pattern("*".into()).matches(""));
    assert!(Pattern("".into()).matches(""));
    assert!(!Pattern("".into()).matches("x"));
}

const COMPONENT_KEYS: &str = "# class\tbase\tkeys\n\
Container\tMonoBehaviour\titems,addedDefaultItems\n\
Character\tMonoBehaviour\ttamed,health\n\
Humanoid\tCharacter\tBodyArmor\n\
Tameable\tMonoBehaviour\tTameTimeLeft\n\
ItemDrop\tMonoBehaviour\tdata_0,stack\n\
Terminal\t\tcreator\n";

const PREFAB_COMPONENTS: &str = "piece_chest_wood\tContainer\n\
Boar\tHumanoid,Tameable,ZSyncAnimation\n\
Coins\tItemDrop\n\
\n\
# comment\n";

const KEY_PATTERNS: &str = "ItemDrop\tdata_#\nTerminal\tdebug_*\n";

const CONNECTION_TYPES: &str = "Portal\tTeleportWorld\tTeleportWorld\nSpawned\tCreatureSpawner\t\n";

const ANIM_PARAMS: &str = "forward_speed\n  anim_speed  \n\n";

fn schema() -> Schema {
    Schema::from_tables(COMPONENT_KEYS, PREFAB_COMPONENTS, KEY_PATTERNS, CONNECTION_TYPES, ANIM_PARAMS)
}

#[test]
fn chest_owns_items_but_not_tamed() {
    let s = schema();
    let chest = stable_hash("piece_chest_wood");
    assert_eq!(
        s.judge(chest, stable_hash("items"), Some("items")),
        Verdict::Owned("Container".into())
    );
    assert!(matches!(
        s.judge(chest, stable_hash("tamed"), Some("tamed")),
        Verdict::Foreign(_)
    ));
    let boar = stable_hash("Boar");
    assert_eq!(
        s.judge(boar, stable_hash("tamed"), Some("tamed")),
        Verdict::Owned("Character".into())
    );
    assert_eq!(
        s.judge(boar, stable_hash("TameTimeLeft"), None),
        Verdict::Owned("Tameable".into())
    );
    let coins = stable_hash("Coins");
    assert_eq!(
        s.judge(coins, stable_hash("data_0"), Some("data_0")),
        Verdict::Owned("ItemDrop".into())
    );
    assert_eq!(
        s.judge(stable_hash("NoSuchPrefab"), stable_hash("tamed"), None),
        Verdict::UnknownPrefab
    );
}

#[test]
fn non_component_keys_and_unknown_names_are_never_foreign() {
    let s = schema();
    let chest = stable_hash("piece_chest_wood");
    assert_eq!(
        s.judge(chest, stable_hash("creator"), Some("creator")),
        Verdict::Universal
    );
    assert_eq!(
        s.judge(chest, stable_hash("debug_x"), Some("debug_x")),
        Verdict::Universal
    );
    assert_eq!(
        s.judge(chest, stable_hash("SomeMod.m_custom"), Some("SomeMod.m_custom")),
        Verdict::Unattributed
    );
    assert_eq!(s.judge(chest, 123_456_789, None), Verdict::UnknownKey);
}

#[test]
fn pattern_owned_keys_follow_the_component() {
    let s = schema();
    let chest = stable_hash("piece_chest_wood");
    assert_eq!(
        s.judge(chest, stable_hash("data_7"), Some("data_7")),
        Verdict::Foreign(vec!["ItemDrop".into()])
    );
    assert_eq!(
        s.judge(stable_hash("Coins"), stable_hash("data_7"), Some("data_7")),
        Verdict::Owned("ItemDrop".into())
    );
}

#[test]
fn base_classes_count_for_their_subclasses() {
    let s = schema();
    let boar = stable_hash("Boar");
    assert!(s.prefab_has_class(boar, "Character"));
    assert!(s.prefab_has_class(boar, "Humanoid"));
    assert!(!s.prefab_has_class(boar, "Container"));
    assert!(!s.prefab_has_class(stable_hash("NoSuchPrefab"), "Character"));
    assert!(s.knows_prefab(boar));
    assert!(!s.knows_prefab(stable_hash("NoSuchPrefab")));
    assert!(s.class_id("Humanoid").is_some());
    assert!(s.class_id("Nothing").is_none());
}

#[test]
fn animator_keys_belong_to_the_animation_class() {
    let s = schema();
    let key = fejdit::hash::animator_key("forward_speed");
    assert_eq!(
        s.judge(stable_hash("Boar"), key, None),
        Verdict::Owned("ZSyncAnimation".into())
    );
    assert_eq!(
        s.judge(stable_hash("Coins"), key, None),
        Verdict::Foreign(vec!["ZSyncAnimation".into()])
    );
    let raw = fejdit::hash::animator_hash("anim_speed");
    assert_eq!(
        s.judge(stable_hash("Boar"), raw, None),
        Verdict::Owned("ZSyncAnimation".into())
    );
}

#[test]
fn connection_verdicts_follow_the_table() {
    let s = schema();
    let coins = stable_hash("Coins");
    assert_eq!(
        s.judge_connection(coins, Some("Portal"), false),
        Verdict::Foreign(vec!["TeleportWorld".into()])
    );
    assert_eq!(s.judge_connection(coins, Some("Spawned"), true), Verdict::Universal);
    assert_eq!(s.judge_connection(coins, Some("SyncTransform"), false), Verdict::UnknownKey);
    assert_eq!(s.judge_connection(coins, None, false), Verdict::UnknownKey);
    assert_eq!(
        s.judge_connection(stable_hash("NoSuchPrefab"), Some("Portal"), false),
        Verdict::UnknownPrefab
    );
}
