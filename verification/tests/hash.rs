use fejdit::hash::{animator_hash, animator_key, stable_hash};

#[test]
fn empty_string_is_the_seed_combination() {
    assert_eq!(
        stable_hash(""),
        5381_i32.wrapping_add(5381_i32.wrapping_mul(1_566_083_941))
    );
}

#[test]
fn distinct_keys_hash_differently() {
    assert_ne!(stable_hash("items"), stable_hash("item"));
    assert_ne!(stable_hash("tamed"), stable_hash("Tamed"));
}

/// Both vectors come from keys observed in real saves: `anim_speed` is
/// written raw, everything else through the offset.
#[test]
fn animator_hashes_match_observed_keys() {
    assert_eq!(animator_hash("anim_speed"), 1_477_933_170);
    assert_eq!(animator_key("flapping"), 23_215_934);
    assert_eq!(animator_key("forward_speed"), -1_489_121_593);
    assert_eq!(animator_key("onGround"), -1_493_684_636);
    assert_ne!(animator_key("alert"), stable_hash("alert"));
}

#[test]
fn stable_hash_stops_at_a_nul_unit() {
    assert_eq!(stable_hash("ab\u{0}cd"), stable_hash("ab"));
}

#[test]
fn stable_hash_of_one_unit() {
    // One unit goes into the even accumulator; the odd one stays at its seed.
    assert_eq!(
        stable_hash("a"),
        (5381_i32.wrapping_mul(33) ^ 97).wrapping_add(5381_i32.wrapping_mul(1_566_083_941))
    );
}
