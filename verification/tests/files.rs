use fejdit::chunk_files::{ChunkFile, ChunkMap, FileError, OkMarker};
use fejdit::chunked::{ChunkIndex, ChunkInfo};
use fejdit::fwl::WorldMeta;
use fejdit::hash::stable_hash;
use fejdit::primitives::{Bool, CsString, StringList, Vec2i, Vec2s, Vec3};
use fejdit::versions::{CHUNK_VERSION, WORLD_CURRENT, WORLD_LEGACY_CURRENT};
use fejdit::world_db::{Counted, RandEvent, RandEventData, WorldDb, ZdoSection, ZoneSystemData};
use fejdit::zdo::{Position, Rotation, Zdo};

fn cs(s: &str) -> CsString {
    CsString(s.to_string())
}

fn meta(version: i32) -> WorldMeta {
    WorldMeta {
        version,
        name: cs("Midgard"),
        seed_name: cs("abcdefghij"),
        seed: 12345,
        uid: 987654321,
        world_gen_version: Some(2),
        needs_db: Some(Bool(true)),
        starting_global_keys: Some(StringList { items: vec![cs("nomap")] }),
        player_history: None,
    }
}

#[test]
fn world_metadata_round_trips() {
    let m = meta(WORLD_LEGACY_CURRENT);
    let bytes = m.to_file_bytes().unwrap();
    let back = WorldMeta::parse(&bytes).unwrap();
    assert_eq!(back.name.0, "Midgard");
    assert_eq!(back.seed, 12345);
    assert_eq!(back.uid, 987654321);
    assert_eq!(back.to_file_bytes().unwrap(), bytes);
    assert!(WorldMeta::parse(&bytes[..bytes.len() - 3]).is_err());
}

#[test]
fn upgrading_metadata_stamps_the_current_version() {
    let mut m = meta(WORLD_LEGACY_CURRENT);
    m.upgrade();
    assert_eq!(m.version, WORLD_CURRENT);
    let bytes = m.to_file_bytes().unwrap();
    assert_eq!(WorldMeta::parse(&bytes).unwrap().version, WORLD_CURRENT);
}

fn beech() -> Zdo {
    let mut z = Zdo::default();
    z.persistent = true;
    z.prefab = stable_hash("Beech1");
    z
}

#[test]
fn a_chunk_file_round_trips_compact_records() {
    let mut z = beech();
    z.position = Position::Short(Vec2s { x: 100, y: -200 });
    z.rotation = Some(Rotation::Yaw(180));
    let file = ChunkFile { version: CHUNK_VERSION as i16, zdos: vec![z] };
    let bytes = file.to_bytes().unwrap();
    assert_eq!(bytes.len(), 2 + 4 + (2 + 4 + 4 + 2), "version, count, flags, short pair, prefab, yaw");
    let back = ChunkFile::parse(&bytes).unwrap();
    assert_eq!(back.zdos.len(), 1);
    assert_eq!(back.zdos[0].position, Position::Short(Vec2s { x: 100, y: -200 }));
    assert_eq!(back.zdos[0].rotation, Some(Rotation::Yaw(180)));
    assert_eq!(back.to_bytes().unwrap(), bytes);
}

#[test]
fn positions_outside_the_small_form_stay_full() {
    let mut z = beech();
    z.persistent = false;
    z.position = Position::Exact(Vec3 { x: 100.5f32.to_bits(), y: 0, z: (-200.0f32).to_bits() });
    let file = ChunkFile { version: CHUNK_VERSION as i16, zdos: vec![z] };
    let bytes = file.to_bytes().unwrap();
    assert_eq!(bytes.len(), 2 + 4 + (2 + 12 + 4));
    assert_eq!(ChunkFile::parse(&bytes).unwrap().zdos[0].position, file.zdos[0].position);
}

#[test]
fn a_chunk_map_round_trips() {
    let map = ChunkMap {
        version: 1,
        total_zdos: 3,
        chunks: vec![
            ChunkInfo { index: ChunkIndex { chunk: 0x0203, size: 0 }, version: 4, num_zdos: 2 },
            ChunkInfo { index: ChunkIndex { chunk: 1, size: 0 }, version: 1, num_zdos: 1 },
        ],
    };
    let bytes = map.to_bytes().unwrap();
    let back = ChunkMap::parse(&bytes).unwrap();
    assert_eq!(back.total_zdos, 3);
    assert_eq!(back.chunks.len(), 2);
    assert_eq!(back.chunks[0].index, ChunkIndex { chunk: 0x0203, size: 0 });
    assert_eq!(back.to_bytes().unwrap(), bytes);
    let mut longer = bytes.clone();
    longer.extend_from_slice(&[1, 2]);
    assert!(matches!(ChunkMap::parse(&longer), Err(FileError::TrailingBytes { count: 2 })));
}

#[test]
fn the_ok_marker_is_the_version() {
    let ok = OkMarker { version: WORLD_CURRENT };
    assert_eq!(ok.to_bytes(), WORLD_CURRENT.to_le_bytes().to_vec());
    assert_eq!(OkMarker::parse(&ok.to_bytes()).unwrap(), ok);
}

#[test]
fn a_legacy_db_round_trips() {
    let mut z = beech();
    z.sector = Some(Vec2s { x: 2, y: -3 });
    z.position = Position::Exact(Vec3 { x: 100.0f32.to_bits(), y: 0, z: (-200.0f32).to_bits() });
    z.ints.entries.push((stable_hash("health"), 5));
    let db = WorldDb {
        version: 34,
        net_time: Some(1234.5f64.to_bits()),
        zdos: ZdoSection { session_id: 77, next_uid: 9, zdos: vec![z] },
        zone_system: Some(ZoneSystemData {
            generated_zones: Counted { items: vec![Vec2i { x: 1, y: -1 }] },
            pgw_version: Some(0),
            location_version: Some(1),
            global_keys: Some(StringList { items: vec![cs("defeated_eikthyr")] }),
            locations_generated: Some(Bool(true)),
            locations: Some(vec![]),
        }),
        rand_events: Some(RandEventData {
            event_timer: 0,
            current: Some(RandEvent { name: cs(""), time: 0, position: Vec3::default() }),
        }),
        persistent_events: None,
    };
    let bytes = db.to_bytes().unwrap();
    let back = WorldDb::parse(&bytes).unwrap();
    assert_eq!(back.version, 34);
    assert_eq!(back.zdos.zdos.len(), 1);
    assert_eq!(back.zdos.zdos[0].int_value(stable_hash("health")), Some(5));
    assert_eq!(back.to_bytes().unwrap(), bytes);
}

#[test]
fn a_db_older_than_any_supported_is_refused() {
    let mut bytes = 30i32.to_le_bytes().to_vec();
    bytes.extend_from_slice(&[0; 16]);
    assert!(matches!(WorldDb::parse(&bytes), Err(FileError::VersionTooOld { version: 30, oldest: 31 })));
}
