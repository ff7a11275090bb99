//! A chunked world directory in memory, and what 1.0 makes of a
//! single-file world the first time it saves it.

use vstd::prelude::*;
use crate::chunk_files::{run_writable, ser_chunk_map, zdo_models, ChunkFile, ChunkMap, ChunkMapModel, FileError, OkMarker};
use crate::chunked::{
    chunk_holds, chunks_view, has_portal, is_portal, main_file_name, partition, ChunkIndex, ChunkInfo,
};
use crate::compress::gzip_fits;
use crate::db2::{db2_encodable, is_db2_bytes, Db2, PackedLocation, ZoneSystemPacked};
use crate::hash::{spec_stable_hash, stable_hash};
use crate::migrate::{dur_of, functional, migrate_zdo, migrated, needs_migration, spec_needs_migration};
use crate::primitives::{Bool, ByteArray, CsString, StringList, Vec2i, Vec2s, Vec3};
use crate::versions::{CHUNK_VERSION, WORLD_CURRENT};
use crate::wire::Wire;
use crate::world_db::{
    empty_zone, no_event, or_else, Counted, LocationInstance, LocationModel, RandEvent, RandEventData,
    RandEventsModel, WorldDb, ZoneModel,
};
use crate::zdo::{PropTable, Position, Rotation, TableValue, Zdo, ZdoModel};

verus! {

// ---------------------------------------------------------------- copies

fn copy_table<T: TableValue>(t: &PropTable<T>) -> (r: PropTable<T>)
    ensures
        r.model() == t.model(),
{
    let mut entries: Vec<(i32, T)> = Vec::new();
    let mut i: usize = 0;
    while i < t.entries.len()
        invariant
            i <= t.entries@.len(),
            entries@.len() == i,
            forall|j: int| 0 <= j < i ==> (#[trigger] entries@[j]).model() == t.entries@[j].model(),
        decreases t.entries@.len() - i,
    {
        entries.push((t.entries[i].0, t.entries[i].1.duplicate()));
        i = i + 1;
    }
    let r = PropTable { entries };
    assert(r.model() =~= t.model());
    r
}

impl Zdo {
    /// A copy of the object.
    pub fn duplicate(&self) -> (r: Zdo)
        ensures
            r.model() == self.model(),
    {
        Zdo {
            persistent: self.persistent,
            distant: self.distant,
            object_type: self.object_type,
            sector: self.sector,
            position: self.position,
            prefab: self.prefab,
            rotation: self.rotation,
            connection: self.connection,
            floats: copy_table(&self.floats),
            vec3s: copy_table(&self.vec3s),
            quats: copy_table(&self.quats),
            ints: copy_table(&self.ints),
            longs: copy_table(&self.longs),
            strings: copy_table(&self.strings),
            byte_arrays: copy_table(&self.byte_arrays),
        }
    }
}

// ---------------------------------------------------------------- the directory

/// One chunk: its map entry and its file.
pub struct Chunk {
    pub info: ChunkInfo,
    pub file: ChunkFile,
}

/// Everything in a chunked world directory except the metadata.
pub struct ChunkedDb {
    pub db2: Db2,
    /// The version the `.chunks` map was written with.
    pub map_version: u16,
    /// In `.chunks` order, which is the order the game loads them in.
    pub chunks: Vec<Chunk>,
}

/// How many objects the first `n` chunks hold.
pub open spec fn objects_in(chunks: Seq<Chunk>, n: nat) -> nat
    decreases n,
{
    if n == 0 {
        0
    } else {
        objects_in(chunks, (n - 1) as nat) + chunks[n - 1].file.zdos@.len()
    }
}

/// Whether chunk `c`'s objects can all be written in its file's version.
pub open spec fn chunk_writable(c: Chunk) -> bool {
    run_writable(zdo_models(c.file.zdos@), c.file.version as i32)
}

impl ChunkedDb {
    /// How many objects the chunks hold.
    pub open spec fn spec_zdo_count(&self) -> nat {
        objects_in(self.chunks@, self.chunks@.len())
    }

    /// The `.chunks` map describing the chunks held here, counts included.
    pub open spec fn spec_chunk_map(&self) -> ChunkMapModel {
        ChunkMapModel {
            version: self.map_version,
            total_zdos: self.spec_zdo_count() as i32,
            chunks: Seq::new(
                self.chunks@.len(),
                |i: int| ChunkInfo { num_zdos: self.chunks@[i].file.zdos@.len() as i32, ..self.chunks@[i].info },
            ),
        }
    }

    /// Whether every chunk's objects can be written in its file's version.
    pub open spec fn chunks_writable(&self) -> bool {
        forall|k: int| 0 <= k < self.chunks@.len() ==> #[trigger] chunk_writable(self.chunks@[k])
    }

    /// How many objects the chunks hold.
    pub fn zdo_count(&self) -> (n: usize)
        requires
            self.spec_zdo_count() <= usize::MAX,
        ensures
            n == self.spec_zdo_count(),
    {
        let mut n: usize = 0;
        let mut i: usize = 0;
        while i < self.chunks.len()
            invariant
                i <= self.chunks@.len(),
                n == objects_in(self.chunks@, i as nat),
                self.spec_zdo_count() <= usize::MAX,
            decreases self.chunks@.len() - i,
        {
            proof {
                lemma_objects_in_monotone(self.chunks@, (i + 1) as nat, self.chunks@.len());
            }
            n = n + self.chunks[i].file.zdos.len();
            i = i + 1;
        }
        n
    }

    /// The `.chunks` map describing the chunks held here, counts included.
    pub fn chunk_map(&self) -> (m: ChunkMap)
        requires
            self.spec_zdo_count() <= i32::MAX,
        ensures
            m.version == self.map_version,
            m.total_zdos == self.spec_zdo_count(),
            m.chunks@.len() == self.chunks@.len(),
            forall|i: int|
                0 <= i < m.chunks@.len() ==> #[trigger] m.chunks@[i] == (ChunkInfo {
                    num_zdos: self.chunks@[i].file.zdos@.len() as i32,
                    ..self.chunks@[i].info
                }),
    {
        let mut chunks: Vec<ChunkInfo> = Vec::new();
        let mut total: i32 = 0;
        let mut i: usize = 0;
        while i < self.chunks.len()
            invariant
                i <= self.chunks@.len(),
                total == objects_in(self.chunks@, i as nat),
                self.spec_zdo_count() <= i32::MAX,
                chunks@.len() == i,
                forall|k: int|
                    0 <= k < i ==> #[trigger] chunks@[k] == (ChunkInfo {
                        num_zdos: self.chunks@[k].file.zdos@.len() as i32,
                        ..self.chunks@[k].info
                    }),
            decreases self.chunks@.len() - i,
        {
            proof {
                lemma_objects_in_monotone(self.chunks@, (i + 1) as nat, self.chunks@.len());
            }
            let c = &self.chunks[i];
            let n = c.file.zdos.len() as i32;
            chunks.push(ChunkInfo { index: c.info.index, version: c.info.version, num_zdos: n });
            total = total + n;
            i = i + 1;
        }
        ChunkMap { version: self.map_version, total_zdos: total, chunks }
    }

    /// Every file of the directory except the metadata, as `(file name,
    /// bytes)`, for save number `save_number`: the `.db2`, the `.chunks`
    /// map, each chunk in order, and the `.ok` marker last.
    pub fn files(&self, save_number: u32) -> (r: Result<Vec<(String, Vec<u8>)>, FileError>)
        requires
            self.spec_zdo_count() <= i32::MAX,
        ensures
            r matches Ok(v) ==> v@.len() == self.chunks@.len() + 3 && v@[0].0@ == crate::chunked::spec_main_file_name(
                save_number,
                "db2"@,
            ) && v@[1].0@ == crate::chunked::spec_main_file_name(save_number, "chunks"@) && v@.last().0@
                == crate::chunked::spec_main_file_name(save_number, "ok"@) && v@.last().1@ == <i32 as Wire>::wire_ser(
                self.db2.version,
            ) && (forall|k: int|
                0 <= k < self.chunks@.len() ==> #[trigger] v@[k + 2].0@ == crate::chunked::chunk_file_name(
                    self.chunks@[k].info.index,
                    self.chunks@[k].info.version,
                ) && v@[k + 2].1@ == crate::chunk_files::ser_chunk_file(
                    self.chunks@[k].file.version,
                    zdo_models(self.chunks@[k].file.zdos@),
                )),
            r matches Ok(v) ==> is_db2_bytes(v@[0].1@, self.db2.model()) && v@[1].1@ == ser_chunk_map(
                self.spec_chunk_map(),
            ),
            match r {
                Ok(_) => db2_encodable(self.db2.model()) && self.chunks@.len() <= i32::MAX && self.chunks_writable(),
                Err(FileError::Compression) => db2_encodable(self.db2.model()) && !gzip_fits(
                    <ZoneSystemPacked as Wire>::wire_ser(self.db2.model().zone_system),
                ),
                Err(FileError::ValueTooLarge) => !db2_encodable(self.db2.model()) || !self.chunks_writable(),
                Err(FileError::Object(_)) => !self.chunks_writable(),
                Err(FileError::TooManyEntries { count }) => count == self.chunks@.len() && count > i32::MAX,
                Err(_) => false,
            },
    {
        let mut files: Vec<(String, Vec<u8>)> = Vec::new();
        let db2 = match self.db2.to_bytes() {
            Ok(b) => b,
            Err(e) => {
                return Err(e);
            },
        };
        files.push((main_file_name(save_number, "db2"), db2));
        let cm = self.chunk_map();
        assert(cm.chunks@ =~= self.spec_chunk_map().chunks);
        assert(cm.model() == self.spec_chunk_map());
        let map = match cm.to_bytes() {
            Ok(b) => b,
            Err(e) => {
                return Err(e);
            },
        };
        files.push((main_file_name(save_number, "chunks"), map));
        let mut i: usize = 0;
        while i < self.chunks.len()
            invariant
                i <= self.chunks@.len(),
                files@.len() == i + 2,
                files@[0].0@ == crate::chunked::spec_main_file_name(save_number, "db2"@),
                files@[1].0@ == crate::chunked::spec_main_file_name(save_number, "chunks"@),
                forall|k: int|
                    0 <= k < i ==> #[trigger] files@[k + 2].0@ == crate::chunked::chunk_file_name(
                        self.chunks@[k].info.index,
                        self.chunks@[k].info.version,
                    ) && files@[k + 2].1@ == crate::chunk_files::ser_chunk_file(
                        self.chunks@[k].file.version,
                        zdo_models(self.chunks@[k].file.zdos@),
                    ),
                is_db2_bytes(files@[0].1@, self.db2.model()),
                files@[1].1@ == ser_chunk_map(self.spec_chunk_map()),
                db2_encodable(self.db2.model()),
                self.chunks@.len() <= i32::MAX,
                self.spec_zdo_count() <= i32::MAX,
                forall|k: int| 0 <= k < i ==> #[trigger] chunk_writable(self.chunks@[k]),
            decreases self.chunks@.len() - i,
        {
            proof {
                lemma_objects_in_monotone(self.chunks@, (i + 1) as nat, self.chunks@.len());
            }
            let c = &self.chunks[i];
            assert(objects_in(self.chunks@, (i + 1) as nat) == objects_in(self.chunks@, i as nat)
                + self.chunks@[i as int].file.zdos@.len());
            let bytes = match c.file.to_bytes() {
                Ok(b) => b,
                Err(e) => {
                    assert(!chunk_writable(self.chunks@[i as int]));
                    return Err(e);
                },
            };
            files.push((c.info.file_name(), bytes));
            i = i + 1;
        }
        let ghost body = files@;
        let ok = OkMarker { version: self.db2.version };
        files.push((main_file_name(save_number, "ok"), ok.to_bytes()));
        assert(forall|k: int| 0 <= k < self.chunks@.len() + 2 ==> #[trigger] files@[k] == body[k]);
        Ok(files)
    }
}

pub(crate) proof fn lemma_objects_in_monotone(chunks: Seq<Chunk>, a: nat, b: nat)
    requires
        a <= b <= chunks.len(),
    ensures
        objects_in(chunks, a) <= objects_in(chunks, b),
    decreases b - a,
{
    if a < b {
        lemma_objects_in_monotone(chunks, a, (b - 1) as nat);
    }
}


// ---------------------------------------------------------------- from the single-file layout

/// Whether `f` gives one result for each argument.
pub open spec fn lay_functional<L: Fn(Position, Option<Rotation>) -> (u32, Position, Option<Rotation>)>(f: L) -> bool {
    forall|p: Position, r: Option<Rotation>, o1: (u32, Position, Option<Rotation>), o2: (u32, Position, Option<Rotation>)|
        #![trigger call_ensures(f, (p, r), o1), call_ensures(f, (p, r), o2)]
        call_ensures(f, (p, r), o1) && call_ensures(f, (p, r), o2) ==> o1 == o2
}

/// What `f` gives for a position and rotation.
pub open spec fn lay_of<L: Fn(Position, Option<Rotation>) -> (u32, Position, Option<Rotation>)>(f: L) -> spec_fn(
    Position,
    Option<Rotation>,
) -> (u32, Position, Option<Rotation>) {
    |p: Position, r: Option<Rotation>| choose|o: (u32, Position, Option<Rotation>)| call_ensures(f, (p, r), o)
}

/// The objects after the migrations a world of `version` still needs.
pub open spec fn migrated_objects(ms: Seq<ZdoModel>, version: i32, dur: spec_fn(u32) -> i32) -> Seq<ZdoModel> {
    Seq::new(
        ms.len(),
        |i: int|
            if spec_needs_migration(version) {
                migrated(ms[i], version, dur)
            } else {
                ms[i]
            },
    )
}

/// An object in the compact record: no sector, and the position and
/// rotation `lay` gives for its own.
pub open spec fn laid_out(
    m: ZdoModel,
    lay: spec_fn(Position, Option<Rotation>) -> (u32, Position, Option<Rotation>),
) -> ZdoModel {
    let o = lay(m.position, m.rotation);
    ZdoModel { sector: None, position: o.1, rotation: o.2, ..m }
}

/// Each object's sector, as `lay` gives it.
pub open spec fn sector_list(
    ms: Seq<ZdoModel>,
    lay: spec_fn(Position, Option<Rotation>) -> (u32, Position, Option<Rotation>),
) -> Seq<u32> {
    Seq::new(ms.len(), |i: int| lay(ms[i].position, ms[i].rotation).0)
}

/// Each object's prefab.
pub open spec fn prefab_list(ms: Seq<ZdoModel>) -> Seq<i32> {
    Seq::new(ms.len(), |i: int| ms[i].prefab)
}

/// What dealing objects into chunks promises (see
/// [`crate::chunked::partition`]): the portal chunk last holding exactly
/// the portals, every other chunk only non-portal objects of its square,
/// sizes rising, every non-portal object in exactly one of those chunks,
/// and each of those listing its objects by sector, then by index.
pub open spec fn partition_ok(parts: Seq<(ChunkIndex, Seq<usize>)>, sectors: Seq<u32>, prefabs: Seq<i32>) -> bool {
    let n = parts.len() - if has_portal(prefabs) {
        1int
    } else {
        0int
    };
    &&& has_portal(prefabs) ==> parts.len() >= 1 && parts.last().0 == ChunkIndex::spec_portals() && (forall|k: int|
        0 <= k < parts.last().1.len() ==> #[trigger] parts.last().1[k] < prefabs.len() && is_portal(
            prefabs[parts.last().1[k] as int],
        )) && (forall|i: int| 0 <= i < prefabs.len() && is_portal(#[trigger] prefabs[i]) ==> parts.last().1.contains(i as usize))
    &&& forall|k: int| 0 <= k < n ==> #[trigger] chunk_holds(parts[k], sectors, prefabs)
    &&& forall|a: int, b: int| 0 <= a <= b < n ==> #[trigger] parts[a].0.size <= #[trigger] parts[b].0.size
    &&& forall|j: int|
        0 <= j < prefabs.len() && !is_portal(#[trigger] prefabs[j]) ==> exists|k: int|
            0 <= k < n && (#[trigger] parts[k]).1.contains(j as usize)
    &&& forall|k: int| 0 <= k < n ==> crate::chunked::ascends((#[trigger] parts[k]).1, sectors)
    &&& forall|k1: int, k2: int, j: usize|
        0 <= k1 < k2 < n ==> !(#[trigger] parts[k1].1.contains(j) && #[trigger] parts[k2].1.contains(j))
}

/// Whether `chunks` are the parts `parts` of the objects `laid`: each a
/// freshly written chunk (version 1) of the current chunk-file version.
pub open spec fn chunks_from(chunks: Seq<Chunk>, parts: Seq<(ChunkIndex, Seq<usize>)>, laid: Seq<ZdoModel>) -> bool {
    &&& chunks.len() == parts.len()
    &&& forall|k: int|
        0 <= k < chunks.len() ==> {
            &&& (#[trigger] chunks[k]).info == (ChunkInfo {
                index: parts[k].0,
                version: 1,
                num_zdos: parts[k].1.len() as i32,
            })
            &&& chunks[k].file.version == CHUNK_VERSION as i16
            &&& zdo_models(chunks[k].file.zdos@) == Seq::new(parts[k].1.len(), |j: int| laid[parts[k].1[j] as int])
        }
}

/// Zones as shorts.
pub open spec fn zones_to_shorts(zs: Seq<Vec2i>) -> Seq<Vec2s> {
    Seq::new(zs.len(), |i: int| Vec2s { x: zs[i].x as i16, y: zs[i].y as i16 })
}

/// Locations by prefab hash: a name is hashed, an absent one hashes as
/// empty, and a missing `placed` is `false`.
pub open spec fn packed_locations(ls: Seq<LocationModel>) -> Seq<(i32, (Vec3, bool))> {
    Seq::new(
        ls.len(),
        |i: int|
            (
                or_else(ls[i].prefab_hash, spec_stable_hash(or_else(ls[i].prefab_name, seq![]))),
                (ls[i].position, or_else(ls[i].placed, false)),
            ),
    )
}

/// The old zone-system state in the packed form, missing fields at the
/// game's defaults.
pub open spec fn legacy_zone_packed(z: Option<ZoneModel>) -> <ZoneSystemPacked as Wire>::Model {
    let zone = or_else(z, empty_zone());
    (
        zones_to_shorts(zone.generated_zones),
        (
            or_else(zone.location_version, 0),
            (
                or_else(zone.global_keys, seq![]),
                (or_else(zone.locations_generated, false), packed_locations(or_else(zone.locations, seq![]))),
            ),
        ),
    )
}

/// The old random-event state with an event in progress (empty when none).
pub open spec fn legacy_events(e: Option<RandEventsModel>) -> RandEventsModel {
    let e0 = or_else(e, RandEventsModel { event_timer: 0, current: None });
    RandEventsModel { event_timer: e0.event_timer, current: Some(or_else(e0.current, no_event())) }
}

/// The `.db2` of a single-file world: the current version, and the old
/// state with missing parts at the game's defaults.
pub open spec fn legacy_db2(m: crate::world_db::DbModel) -> crate::db2::Db2Model {
    crate::db2::Db2Model {
        version: WORLD_CURRENT,
        net_time: or_else(m.net_time, 0),
        zone_system: legacy_zone_packed(m.zone_system),
        rand_events: legacy_events(m.rand_events),
        persistent_events: or_else(m.persistent_events, seq![]),
    }
}

fn copy_strings(l: &StringList) -> (r: StringList)
    ensures
        r.model() == l.model(),
{
    let mut items: Vec<CsString> = Vec::new();
    let mut i: usize = 0;
    while i < l.items.len()
        invariant
            i <= l.items@.len(),
            items@.len() == i,
            forall|j: int| 0 <= j < i ==> (#[trigger] items@[j]).model() == l.items@[j].model(),
        decreases l.items@.len() - i,
    {
        items.push(l.items[i].clone());
        i = i + 1;
    }
    let r = StringList { items };
    assert(r.model() =~= l.model());
    r
}

fn pack_zone(z: &Option<crate::world_db::ZoneSystemData>) -> (r: ZoneSystemPacked)
    ensures
        r.model() == legacy_zone_packed(
            match z {
                Some(z) => Some(z.model()),
                None => None,
            },
        ),
{
    let ghost zm = or_else(
        match z {
            Some(z) => Some(z.model()),
            None => None,
        },
        empty_zone(),
    );
    let mut zones: Vec<Vec2s> = Vec::new();
    let mut locations: Vec<PackedLocation> = Vec::new();
    let (location_version, global_keys, generated) = match z {
        Some(z) => {
            let mut i: usize = 0;
            while i < z.generated_zones.items.len()
                invariant
                    i <= z.generated_zones.items@.len(),
                    zones@.len() == i,
                    forall|j: int|
                        0 <= j < i ==> (#[trigger] zones@[j]) == (Vec2s {
                            x: z.generated_zones.items@[j].x as i16,
                            y: z.generated_zones.items@[j].y as i16,
                        }),
                decreases z.generated_zones.items@.len() - i,
            {
                let v = z.generated_zones.items[i];
                zones.push(Vec2s { x: v.x as i16, y: v.y as i16 });
                i = i + 1;
            }
            match &z.locations {
                Some(ls) => {
                    let mut i: usize = 0;
                    while i < ls.len()
                        invariant
                            i <= ls@.len(),
                            locations@.len() == i,
                            forall|j: int|
                                0 <= j < i ==> (#[trigger] locations@[j]).model() == packed_locations(
                                    crate::world_db::location_models(ls@),
                                )[j],
                        decreases ls@.len() - i,
                    {
                        let l = &ls[i];
                        let hash = match l.prefab_hash {
                            Some(h) => h,
                            None => match &l.prefab_name {
                                Some(n) => stable_hash(n.as_str()),
                                None => {
                                    proof {
                                        reveal_strlit("");
                                    }
                                    stable_hash("")
                                },
                            },
                        };
                        let placed = match &l.placed {
                            Some(b) => b.0,
                            None => false,
                        };
                        locations.push(PackedLocation { prefab_hash: hash, position: l.position, placed: Bool(placed) });
                        i = i + 1;
                    }
                },
                None => {},
            }
            let lv = match z.location_version {
                Some(v) => v,
                None => 0,
            };
            let keys = match &z.global_keys {
                Some(k) => copy_strings(k),
                None => StringList { items: Vec::new() },
            };
            let generated = match &z.locations_generated {
                Some(b) => b.0,
                None => false,
            };
            (lv, keys, generated)
        },
        None => (0, StringList { items: Vec::new() }, false),
    };
    let r = ZoneSystemPacked {
        generated_zones: Counted { items: zones },
        location_version,
        global_keys,
        locations_generated: Bool(generated),
        locations: Counted { items: locations },
    };
    proof {
        assert(r.model().0 =~= zones_to_shorts(zm.generated_zones));
        assert(r.model().1.1.0 =~= or_else(zm.global_keys, seq![]));
        assert(r.model().1.1.1.1 =~= packed_locations(or_else(zm.locations, seq![])));
    }
    r
}

fn legacy_rand_events(e: &Option<RandEventData>) -> (r: RandEventData)
    ensures
        r.model() == legacy_events(
            match e {
                Some(e) => Some(e.model()),
                None => None,
            },
        ),
{
    let (timer, current) = match e {
        Some(e) => (
            e.event_timer,
            match &e.current {
                Some(c) => RandEvent { name: c.name.clone(), time: c.time, position: c.position },
                None => RandEvent { name: CsString(String::new()), time: 0, position: Vec3 { x: 0, y: 0, z: 0 } },
            },
        ),
        None => (0, RandEvent { name: CsString(String::new()), time: 0, position: Vec3 { x: 0, y: 0, z: 0 } }),
    };
    RandEventData { event_timer: timer, current: Some(current) }
}


/// Whether `r` is what the first chunked save makes of the `.db` `db`, with
/// durabilities by `dur` and object layout by `lay`: its `.db2`, the
/// current chunk-map version, and its objects migrated, laid out and dealt
/// into chunks.
pub open spec fn converted_from(
    r: ChunkedDb,
    db: crate::world_db::DbModel,
    dur: spec_fn(u32) -> i32,
    lay: spec_fn(Position, Option<Rotation>) -> (u32, Position, Option<Rotation>),
) -> bool {
    let mig = migrated_objects(db.zdos, db.version, dur);
    let laid = Seq::new(mig.len(), |i: int| laid_out(mig[i], lay));
    &&& r.db2.model() == legacy_db2(db)
    &&& r.map_version == CHUNK_VERSION as u16
    &&& exists|parts: Seq<(ChunkIndex, Seq<usize>)>|
        #[trigger] partition_ok(parts, sector_list(mig, lay), prefab_list(mig)) && chunks_from(r.chunks@, parts, laid)
}

impl ChunkedDb {
    /// What 1.0 makes of a single-file world the first time it saves it:
    /// the objects are migrated, compacted, and dealt into chunks the way
    /// `ZDOMan.GetSaveClonePerChunk` deals a freshly loaded world (nothing
    /// merged yet, everything dirty), and the rest of the `.db` moves into
    /// the `.db2`. `hundredths` turns a durability's float bit pattern into
    /// hundredths; `lay` gives an object's sector and its position and
    /// rotation in the compact record, from its position and rotation.
    pub fn from_legacy<F: Fn(u32) -> i32, L: Fn(Position, Option<Rotation>) -> (u32, Position, Option<Rotation>)>(
        db: &WorldDb,
        hundredths: &F,
        lay: &L,
    ) -> (r: ChunkedDb)
        requires
            forall|b: u32| call_requires(*hundredths, (b,)),
            functional(*hundredths),
            forall|p: Position, q: Option<Rotation>| call_requires(*lay, (p, q)),
            lay_functional(*lay),
            forall|p: Position, q: Option<Rotation>, o: (u32, Position, Option<Rotation>)|
                call_ensures(*lay, (p, q), o) ==> o.0 < 512 * 512,
            db.zdos.zdos@.len() < 0x1000_0000,
        ensures
            converted_from(r, db.model(), dur_of(*hundredths), lay_of(*lay)),
    {
        let ghost ms = db.model().zdos;
        let ghost dur = dur_of(*hundredths);
        let ghost lf = lay_of(*lay);
        let ghost mig = migrated_objects(ms, db.version, dur);
        let ghost laid = Seq::new(mig.len(), |i: int| laid_out(mig[i], lf));
        let version = db.version;
        let migrate = needs_migration(version);
        let n = db.zdos.zdos.len();
        let mut zdos: Vec<Zdo> = Vec::new();
        let mut sectors: Vec<u32> = Vec::new();
        let mut prefabs: Vec<i32> = Vec::new();
        let mut i: usize = 0;
        while i < n
            invariant
                i <= n,
                n == db.zdos.zdos@.len(),
                ms == db.model().zdos,
                dur == dur_of(*hundredths),
                lf == lay_of(*lay),
                mig == migrated_objects(ms, version, dur),
                laid == Seq::new(mig.len(), |i: int| laid_out(mig[i], lf)),
                version == db.version,
                migrate == spec_needs_migration(version),
                forall|b: u32| call_requires(*hundredths, (b,)),
                functional(*hundredths),
                forall|p: Position, q: Option<Rotation>| call_requires(*lay, (p, q)),
                lay_functional(*lay),
                forall|p: Position, q: Option<Rotation>, o: (u32, Position, Option<Rotation>)|
                    call_ensures(*lay, (p, q), o) ==> o.0 < 512 * 512,
                zdos@.len() == i,
                sectors@.len() == i,
                prefabs@.len() == i,
                forall|k: int| 0 <= k < i ==> (#[trigger] zdos@[k]).model() == laid[k],
                forall|k: int| 0 <= k < i ==> #[trigger] sectors@[k] == sector_list(mig, lf)[k],
                forall|k: int| 0 <= k < i ==> #[trigger] sectors@[k] < 512 * 512,
                forall|k: int| 0 <= k < i ==> #[trigger] prefabs@[k] == prefab_list(mig)[k],
            decreases n - i,
        {
            let mut z = db.zdos.zdos[i].duplicate();
            assert(z.model() == ms[i as int]);
            if migrate {
                migrate_zdo(&mut z, version, hundredths);
            }
            assert(z.model() == mig[i as int]);
            let (sector, position, rotation) = lay(z.position, z.rotation);
            proof {
                let o = (sector, position, rotation);
                assert(call_ensures(*lay, (z.position, z.rotation), o));
                assert(call_ensures(*lay, (z.position, z.rotation), lf(z.position, z.rotation)));
                assert(lf(z.position, z.rotation) == o);
            }
            z.sector = None;
            z.position = position;
            z.rotation = rotation;
            assert(z.model() == laid[i as int]);
            prefabs.push(z.prefab);
            sectors.push(sector);
            zdos.push(z);
            i = i + 1;
        }
        let parts = partition(&sectors, &prefabs);
        let ghost pv = chunks_view(parts@);
        proof {
            assert(sectors@ =~= sector_list(mig, lf));
            assert(prefabs@ =~= prefab_list(mig));
            assert(partition_ok(pv, sector_list(mig, lf), prefab_list(mig)));
            assert forall|c: int, j: int| 0 <= c < parts@.len() && 0 <= j < parts@[c].1@.len() implies #[trigger] parts@[c].1@[j] < n by {
                if has_portal(prefabs@) && c == parts@.len() - 1 {
                    assert(parts@.last().1@[j] < prefabs@.len());
                } else {
                    assert(chunk_holds(pv[c], sectors@, prefabs@));
                    assert(pv[c].1[j] == parts@[c].1@[j]);
                }
            }
        }
        let mut chunks: Vec<Chunk> = Vec::new();
        let mut k: usize = 0;
        while k < parts.len()
            invariant
                k <= parts@.len(),
                pv == chunks_view(parts@),
                zdos@.len() == n,
                laid.len() == n,
                forall|j: int| 0 <= j < n ==> (#[trigger] zdos@[j]).model() == laid[j],
                forall|c: int, j: int|
                    0 <= c < parts@.len() && 0 <= j < parts@[c].1@.len() ==> #[trigger] parts@[c].1@[j] < n,
                chunks@.len() == k,
                forall|c: int|
                    0 <= c < k ==> {
                        &&& (#[trigger] chunks@[c]).info == (ChunkInfo {
                            index: pv[c].0,
                            version: 1,
                            num_zdos: pv[c].1.len() as i32,
                        })
                        &&& chunks@[c].file.version == CHUNK_VERSION as i16
                        &&& zdo_models(chunks@[c].file.zdos@) == Seq::new(pv[c].1.len(), |j: int| laid[pv[c].1[j] as int])
                    },
            decreases parts@.len() - k,
        {
            let members = &parts[k].1;
            let mut file_zdos: Vec<Zdo> = Vec::new();
            let mut j: usize = 0;
            while j < members.len()
                invariant
                    j <= members@.len(),
                    members@ == parts@[k as int].1@,
                    zdos@.len() == n,
                    forall|q: int| 0 <= q < n ==> (#[trigger] zdos@[q]).model() == laid[q],
                    forall|q: int| 0 <= q < members@.len() ==> #[trigger] members@[q] < n,
                    file_zdos@.len() == j,
                    forall|q: int| 0 <= q < j ==> (#[trigger] file_zdos@[q]).model() == laid[members@[q] as int],
                decreases members@.len() - j,
            {
                let m = members[j];
                file_zdos.push(zdos[m].duplicate());
                j = j + 1;
            }
            proof {
                assert(zdo_models(file_zdos@) =~= Seq::new(pv[k as int].1.len(), |j: int| laid[pv[k as int].1[j] as int]));
            }
            chunks.push(
                Chunk {
                    info: ChunkInfo { index: parts[k].0, version: 1, num_zdos: members.len() as i32 },
                    file: ChunkFile { version: CHUNK_VERSION as i16, zdos: file_zdos },
                },
            );
            k = k + 1;
        }
        let db2 = Db2 {
            version: WORLD_CURRENT,
            net_time: match db.net_time {
                Some(t) => t,
                None => 0,
            },
            zone_system: pack_zone(&db.zone_system),
            rand_events: legacy_rand_events(&db.rand_events),
            persistent_events: match &db.persistent_events {
                Some(b) => b.clone(),
                None => ByteArray { data: Vec::new() },
            },
        };
        let r = ChunkedDb { db2, map_version: CHUNK_VERSION as u16, chunks };
        proof {
            assert(chunks_from(r.chunks@, pv, laid));
            assert(partition_ok(pv, sector_list(mig, lf), prefab_list(mig)));
            assert(r.db2.model() == legacy_db2(db.model()));
            let m2 = migrated_objects(db.model().zdos, db.model().version, dur);
            assert(m2 =~= mig);
            let l2 = Seq::new(m2.len(), |i: int| laid_out(m2[i], lf));
            assert(l2 =~= laid);
            assert(partition_ok(pv, sector_list(m2, lf), prefab_list(m2)) && chunks_from(r.chunks@, pv, l2));
        }
        r
    }
}

} // verus!
