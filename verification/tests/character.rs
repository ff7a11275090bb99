use fejdit::chunk_files::FileError;
use fejdit::fch::{frame_character_payload, split_character_file, stat_index, stat_name};

#[test]
fn a_framed_payload_opens_with_its_hash() {
    let payload = vec![1u8, 2, 3, 4, 5];
    let file = frame_character_payload(&payload);
    assert_eq!(file.len(), payload.len() + 72);
    assert_eq!(&file[0..4], &[5, 0, 0, 0]);
    assert_eq!(&file[9..13], &[64, 0, 0, 0]);
    let env = split_character_file(&file).unwrap();
    assert_eq!(env.payload, payload);
    assert!(env.hash_ok);
}

#[test]
fn the_hash_is_sha512() {
    let file = frame_character_payload(&[]);
    assert_eq!(&file[8..12], &[0xcf, 0x83, 0xe1, 0x35]);
}

#[test]
fn a_changed_payload_fails_its_hash() {
    let mut file = frame_character_payload(&[9u8, 9, 9]);
    file[5] = 8;
    let env = split_character_file(&file).unwrap();
    assert_eq!(env.payload, vec![9u8, 8, 9]);
    assert!(!env.hash_ok);
}

#[test]
fn lengths_past_the_end_are_malformed() {
    assert!(matches!(split_character_file(&[10, 0, 0, 0, 1, 2]), Err(FileError::Malformed)));
    assert!(matches!(split_character_file(&[0xff, 0xff, 0xff, 0xff]), Err(FileError::Malformed)));
    assert!(matches!(split_character_file(&[0, 0, 0, 0, 5, 0, 0, 0, 1]), Err(FileError::Malformed)));
    assert!(matches!(split_character_file(&[1, 0]), Err(FileError::Malformed)));
}

#[test]
fn stats_are_named_in_slot_order() {
    assert_eq!(stat_name(0), "Deaths");
    assert_eq!(stat_name(204), "DeathByAshlandsLava");
    assert_eq!(stat_name(205), "Stat205");
    assert_eq!(stat_index("Builds"), 2);
    assert_eq!(stat_index("EnemyKills"), 6);
}
