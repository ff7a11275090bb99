use fejdit::chunk_files::ChunkFile;
use fejdit::chunked::{ChunkIndex, ChunkInfo};
use fejdit::chunked_db::Chunk;
use fejdit::hash::stable_hash;
use fejdit::names::NameTable;
use fejdit::survey::{count_objects, summarize_chunks, summarize_objects};
use fejdit::zdo::Zdo;

fn object(prefab: i32, persistent: bool, props: usize) -> Zdo {
    let mut z = Zdo::default();
    z.prefab = prefab;
    z.persistent = persistent;
    for k in 0..props {
        z.ints.entries.push((k as i32, 1));
    }
    z
}

#[test]
fn objects_are_counted_per_prefab_in_first_seen_order() {
    let beech = stable_hash("Beech1");
    let rock = stable_hash("rock4_coast");
    let objs = vec![object(beech, true, 2), object(rock, false, 1), object(beech, true, 0)];
    let c = count_objects(&objs);
    assert_eq!(c.objects, 3);
    assert_eq!(c.persistent, 2);
    assert_eq!(c.properties, 3);
    assert_eq!(c.prefabs, vec![(beech, 2), (rock, 1)]);
}

#[test]
fn the_summary_ranks_prefabs_by_count_then_name() {
    let mut names = NameTable::new();
    names.learn("Beech1");
    names.learn("Birch1");
    let beech = stable_hash("Beech1");
    let birch = stable_hash("Birch1");
    let objs = vec![
        object(birch, true, 0),
        object(beech, true, 0),
        object(7, false, 0),
        object(7, false, 0),
        object(7, false, 0),
    ];
    let s = summarize_objects(&objs, &names, 10);
    assert_eq!(s.objects, 5);
    assert_eq!(s.persistent, 2);
    assert_eq!(s.unknown_prefabs, 1);
    let top: Vec<(&str, usize)> = s.top.iter().map(|t| (t.name.as_str(), t.count)).collect();
    assert_eq!(top, vec![("#7", 3), ("Beech1", 1), ("Birch1", 1)]);
    let short = summarize_objects(&objs, &names, 2);
    assert_eq!(short.top.len(), 2);
    assert_eq!(short.top[1].name, "Beech1");
}

#[test]
fn chunks_are_summarised_by_size_and_portals() {
    let chunk = |index: ChunkIndex, n: usize| Chunk {
        info: ChunkInfo { index, version: 1, num_zdos: n as i32 },
        file: ChunkFile { version: 41, zdos: (0..n).map(|_| Zdo::default()).collect() },
    };
    let chunks = vec![
        chunk(ChunkIndex { chunk: 0x0505, size: 1 }, 4),
        chunk(ChunkIndex { chunk: 1, size: 0 }, 2),
        chunk(ChunkIndex { chunk: 0x0303, size: 0 }, 7),
    ];
    let s = summarize_chunks(&chunks);
    assert_eq!(s.files, 3);
    assert_eq!(s.by_size, vec![(0, 2), (1, 1)]);
    assert_eq!(s.largest, 7);
    assert_eq!(s.portals, 2);
}
