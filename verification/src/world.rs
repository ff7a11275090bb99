//! A world's data in either layout, so commands need not care which.

use vstd::prelude::*;
use crate::chunk_files::zdo_models;
use crate::chunked_db::{lay_functional, Chunk, ChunkedDb};
use crate::migrate::functional;
use crate::primitives::CsString;
use crate::versions::WORLD_CURRENT;
use crate::wire::Wire;
use crate::world_db::{location_models, RandEvent, WorldDb};
use crate::zdo::{Position, Rotation, Zdo, ZdoModel};

verus! {

/// The objects and world state of one save, however it is stored.
pub enum WorldData {
    /// A `.db` beside a `.fwl` (world versions up to 39).
    Db(WorldDb),
    /// A directory of `_main.<N>.*` and `.chunk` files (version 40 up).
    Chunked(ChunkedDb),
}

/// The zone-system figures a world summary reports, common to both
/// layouts.
pub struct ZoneSummary {
    pub generated_zones: usize,
    pub global_keys: Vec<String>,
    pub locations: usize,
    pub locations_placed: usize,
}

/// The objects of the first `n` chunks, one after another.
pub open spec fn chunk_objects(chunks: Seq<Chunk>, n: nat) -> Seq<ZdoModel>
    decreases n,
{
    if n == 0 {
        seq![]
    } else {
        chunk_objects(chunks, (n - 1) as nat) + zdo_models(chunks[n - 1].file.zdos@)
    }
}

/// How many objects each place that holds them holds: the `.db`'s one
/// list, or each chunk in order.
pub open spec fn slot_sizes(w: WorldData) -> Seq<nat> {
    match w {
        WorldData::Db(d) => seq![d.zdos.zdos@.len()],
        WorldData::Chunked(c) => Seq::new(c.chunks@.len(), |k: int| c.chunks@[k].file.zdos@.len()),
    }
}

impl WorldData {
    /// Every object of the world, in file order (chunks in map order).
    pub open spec fn objects(&self) -> Seq<ZdoModel> {
        match self {
            WorldData::Db(d) => zdo_models(d.zdos.zdos@),
            WorldData::Chunked(c) => chunk_objects(c.chunks@, c.chunks@.len()),
        }
    }

    pub open spec fn spec_version(&self) -> i32 {
        match self {
            WorldData::Db(d) => d.version,
            WorldData::Chunked(c) => c.db2.version,
        }
    }

    pub fn version(&self) -> (r: i32)
        ensures
            r == self.spec_version(),
    {
        match self {
            WorldData::Db(d) => d.version,
            WorldData::Chunked(c) => c.db2.version,
        }
    }

    pub fn is_chunked(&self) -> (r: bool)
        ensures
            r == (self is Chunked),
    {
        match self {
            WorldData::Db(_) => false,
            WorldData::Chunked(_) => true,
        }
    }

    /// The net time as an `f64` bit pattern: the `.db` may lack it.
    pub fn net_time(&self) -> (r: Option<u64>)
        ensures
            r == match self {
                WorldData::Db(d) => d.net_time,
                WorldData::Chunked(c) => Some(c.db2.net_time),
            },
    {
        match self {
            WorldData::Db(d) => d.net_time,
            WorldData::Chunked(c) => Some(c.db2.net_time),
        }
    }

    /// The saving session's id and next object id. The chunked layout does
    /// not store them: every load hands out fresh ids.
    pub fn session(&self) -> (r: Option<(i64, u32)>)
        ensures
            r == match self {
                WorldData::Db(d) => Some((d.zdos.session_id, d.zdos.next_uid)),
                WorldData::Chunked(_) => None::<(i64, u32)>,
            },
    {
        match self {
            WorldData::Db(d) => Some((d.zdos.session_id, d.zdos.next_uid)),
            WorldData::Chunked(_) => None,
        }
    }

    /// How many objects the world holds.
    pub fn zdo_count(&self) -> (n: usize)
        requires
            self.objects().len() <= usize::MAX,
        ensures
            n == self.objects().len(),
    {
        match self {
            WorldData::Db(d) => d.zdos.zdos.len(),
            WorldData::Chunked(c) => {
                proof {
                    lemma_chunk_objects_len(c.chunks@, c.chunks@.len());
                }
                c.zdo_count()
            },
        }
    }

    /// Whether the world is at the current version in the chunked layout,
    /// so that upgrading would change nothing.
    pub fn is_current(&self) -> (r: bool)
        ensures
            r == (self.spec_version() >= WORLD_CURRENT && self is Chunked),
    {
        self.version() >= WORLD_CURRENT && self.is_chunked()
    }

    /// The random event in progress: `None` when there is none or its name
    /// is empty.
    pub fn random_event(&self) -> (r: Option<&RandEvent>)
        ensures
            match r {
                Some(e) => e.name.model().len() > 0 && match self {
                    WorldData::Db(d) => d.rand_events matches Some(re) && re.current == Some(*e),
                    WorldData::Chunked(c) => c.db2.rand_events.current == Some(*e),
                },
                None => match self {
                    WorldData::Db(d) => match d.rand_events {
                        Some(re) => match re.current {
                            Some(e) => e.name.model().len() == 0,
                            None => true,
                        },
                        None => true,
                    },
                    WorldData::Chunked(c) => match c.db2.rand_events.current {
                        Some(e) => e.name.model().len() == 0,
                        None => true,
                    },
                },
            },
    {
        let current = match self {
            WorldData::Db(d) => match &d.rand_events {
                Some(e) => &e.current,
                None => {
                    return None;
                },
            },
            WorldData::Chunked(c) => &c.db2.rand_events.current,
        };
        match current {
            Some(e) => if e.name.as_str().is_empty() {
                None
            } else {
                Some(e)
            },
            None => None,
        }
    }
}

proof fn lemma_chunk_objects_len(chunks: Seq<Chunk>, n: nat)
    requires
        n <= chunks.len(),
    ensures
        chunk_objects(chunks, n).len() == crate::chunked_db::objects_in(chunks, n),
    decreases n,
{
    if n > 0 {
        lemma_chunk_objects_len(chunks, (n - 1) as nat);
    }
}

/// How many locations are placed.
pub open spec fn placed_count(ls: Seq<crate::world_db::LocationModel>, n: nat) -> nat
    decreases n,
{
    if n == 0 {
        0
    } else {
        placed_count(ls, (n - 1) as nat) + if ls[n - 1].placed == Some(true) {
            1nat
        } else {
            0nat
        }
    }
}

/// How many packed locations are placed.
pub open spec fn packed_placed_count(ls: Seq<(i32, (crate::primitives::Vec3, bool))>, n: nat) -> nat
    decreases n,
{
    if n == 0 {
        0
    } else {
        packed_placed_count(ls, (n - 1) as nat) + if ls[n - 1].1.1 {
            1nat
        } else {
            0nat
        }
    }
}

fn copy_keys(items: &Vec<CsString>) -> (r: Vec<String>)
    ensures
        r@.len() == items@.len(),
        forall|i: int| 0 <= i < items@.len() ==> #[trigger] r@[i]@ == items@[i].model(),
{
    let mut r: Vec<String> = Vec::new();
    let mut i: usize = 0;
    while i < items.len()
        invariant
            i <= items@.len(),
            r@.len() == i,
            forall|j: int| 0 <= j < i ==> #[trigger] r@[j]@ == items@[j].model(),
        decreases items@.len() - i,
    {
        r.push(items[i].0.clone());
        i = i + 1;
    }
    r
}

impl WorldData {
    /// The zone-system figures: generated zones, global keys, locations and
    /// how many of them are placed. A `.db` missing a part counts nothing
    /// for it.
    pub fn zone_summary(&self) -> (r: ZoneSummary)
        ensures
            match self {
                WorldData::Db(d) => match d.zone_system {
                    Some(z) => {
                        &&& r.generated_zones == z.generated_zones.items@.len()
                        &&& r.global_keys@.map_values(|s: String| s@) == match z.global_keys {
                            Some(k) => k.model(),
                            None => Seq::<Seq<char>>::empty(),
                        }
                        &&& r.locations == match z.locations {
                            Some(v) => v@.len(),
                            None => 0,
                        }
                        &&& r.locations_placed == match z.locations {
                            Some(v) => placed_count(location_models(v@), v@.len() as nat),
                            None => 0,
                        }
                    },
                    None => r.generated_zones == 0 && r.global_keys@.len() == 0 && r.locations == 0
                        && r.locations_placed == 0,
                },
                WorldData::Chunked(c) => {
                    let z = c.db2.zone_system;
                    &&& r.generated_zones == z.generated_zones.items@.len()
                    &&& r.global_keys@.map_values(|s: String| s@) == z.global_keys.model()
                    &&& r.locations == z.locations.items@.len()
                    &&& r.locations_placed == packed_placed_count(z.locations.model(), z.locations.items@.len() as nat)
                },
            },
    {
        match self {
            WorldData::Db(d) => match &d.zone_system {
                Some(z) => {
                    let keys = match &z.global_keys {
                        Some(k) => copy_keys(&k.items),
                        None => Vec::new(),
                    };
                    let (n, placed) = match &z.locations {
                        Some(v) => {
                            let mut placed: usize = 0;
                            let mut i: usize = 0;
                            while i < v.len()
                                invariant
                                    i <= v@.len(),
                                    placed == placed_count(location_models(v@), i as nat),
                                    placed <= i,
                                decreases v@.len() - i,
                            {
                                assert(location_models(v@)[i as int] == v@[i as int].model());
                                let p = match &v[i].placed {
                                    Some(b) => b.0,
                                    None => false,
                                };
                                if p {
                                    placed = placed + 1;
                                }
                                i = i + 1;
                            }
                            (v.len(), placed)
                        },
                        None => (0, 0),
                    };
                    let r = ZoneSummary {
                        generated_zones: z.generated_zones.items.len(),
                        global_keys: keys,
                        locations: n,
                        locations_placed: placed,
                    };
                    proof {
                        if z.global_keys is Some {
                            assert(r.global_keys@.map_values(|s: String| s@) =~= z.global_keys->0.model());
                        } else {
                            assert(r.global_keys@.map_values(|s: String| s@) =~= Seq::<Seq<char>>::empty());
                        }
                    }
                    r
                },
                None => ZoneSummary { generated_zones: 0, global_keys: Vec::new(), locations: 0, locations_placed: 0 },
            },
            WorldData::Chunked(c) => {
                let z = &c.db2.zone_system;
                let keys = copy_keys(&z.global_keys.items);
                let mut placed: usize = 0;
                let mut i: usize = 0;
                while i < z.locations.items.len()
                    invariant
                        i <= z.locations.items@.len(),
                        placed == packed_placed_count(z.locations.model(), i as nat),
                        placed <= i,
                    decreases z.locations.items@.len() - i,
                {
                    assert(z.locations.model()[i as int] == z.locations.items@[i as int].model());
                    if z.locations.items[i].placed.0 {
                        placed = placed + 1;
                    }
                    i = i + 1;
                }
                let r = ZoneSummary {
                    generated_zones: z.generated_zones.items.len(),
                    global_keys: keys,
                    locations: z.locations.items.len(),
                    locations_placed: placed,
                };
                assert(r.global_keys@.map_values(|s: String| s@) =~= z.global_keys.model());
                r
            },
        }
    }
}


/// Whether `b` is `a` with only its objects changed: same layout, same
/// version and state, same chunk map entries and chunk-file versions, each
/// place holding as many objects as before.
pub open spec fn same_but_objects(a: WorldData, b: WorldData) -> bool {
    match (a, b) {
        (WorldData::Db(x), WorldData::Db(y)) => {
            &&& x.version == y.version
            &&& x.net_time == y.net_time
            &&& x.zdos.session_id == y.zdos.session_id
            &&& x.zdos.next_uid == y.zdos.next_uid
            &&& x.zdos.zdos@.len() == y.zdos.zdos@.len()
            &&& x.zone_system == y.zone_system
            &&& x.rand_events == y.rand_events
            &&& x.persistent_events == y.persistent_events
        },
        (WorldData::Chunked(x), WorldData::Chunked(y)) => {
            &&& x.db2 == y.db2
            &&& x.map_version == y.map_version
            &&& x.chunks@.len() == y.chunks@.len()
            &&& forall|k: int|
                0 <= k < x.chunks@.len() ==> {
                    &&& (#[trigger] y.chunks@[k]).info == x.chunks@[k].info
                    &&& y.chunks@[k].file.version == x.chunks@[k].file.version
                    &&& y.chunks@[k].file.zdos@.len() == x.chunks@[k].file.zdos@.len()
                }
        },
        _ => false,
    }
}

fn copy_run(zs: &Vec<Zdo>, out: &mut Vec<Zdo>)
    ensures
        zdo_models(final(out)@) == zdo_models(old(out)@) + zdo_models(zs@),
{
    let ghost o = zdo_models(out@);
    let mut i: usize = 0;
    while i < zs.len()
        invariant
            i <= zs@.len(),
            zdo_models(out@) == o + zdo_models(zs@).take(i as int),
        decreases zs@.len() - i,
    {
        let ghost before = out@;
        out.push(zs[i].duplicate());
        i = i + 1;
        assert(zdo_models(out@) =~= o + zdo_models(zs@).take(i as int)) by {
            assert(zdo_models(out@) =~= zdo_models(before).push(zs@[i - 1].model()));
        }
    }
    assert(zdo_models(zs@).take(i as int) =~= zdo_models(zs@));
}

impl WorldData {
    /// A copy of every object, in file order.
    pub fn objects_copy(&self) -> (r: Vec<Zdo>)
        ensures
            zdo_models(r@) == self.objects(),
    {
        let mut out: Vec<Zdo> = Vec::new();
        assert(zdo_models(out@) =~= seq![]);
        match self {
            WorldData::Db(d) => {
                copy_run(&d.zdos.zdos, &mut out);
                assert(zdo_models(out@) =~= zdo_models(d.zdos.zdos@));
            },
            WorldData::Chunked(c) => {
                let mut k: usize = 0;
                while k < c.chunks.len()
                    invariant
                        k <= c.chunks@.len(),
                        zdo_models(out@) == chunk_objects(c.chunks@, k as nat),
                    decreases c.chunks@.len() - k,
                {
                    copy_run(&c.chunks[k].file.zdos, &mut out);
                    k = k + 1;
                }
            },
        }
        out
    }

    /// Put `zdos` back in place of the objects, in file order: each place
    /// (the `.db`'s list, or each chunk) takes as many as it held.
    pub fn set_objects(&mut self, zdos: &Vec<Zdo>)
        requires
            zdos@.len() == old(self).objects().len(),
        ensures
            final(self).objects() == zdo_models(zdos@),
            same_but_objects(*old(self), *final(self)),
    {
        match self {
            WorldData::Db(d) => {
                let mut v: Vec<Zdo> = Vec::new();
                assert(zdo_models(v@) =~= seq![]);
                copy_run(zdos, &mut v);
                assert(zdo_models(v@) =~= zdo_models(zdos@));
                assert(v@.len() == zdos@.len());
                let ghost before = *d;
                d.zdos.zdos = v;
                assert(before.zdos.zdos@.len() == zdos@.len()) by {
                    assert(zdo_models(before.zdos.zdos@).len() == before.zdos.zdos@.len());
                }
                assert(d.zdos.zdos@.len() == before.zdos.zdos@.len());
                assert(same_but_objects(WorldData::Db(before), WorldData::Db(*d)));
            },
            WorldData::Chunked(c) => {
                let ghost old_c = *c;
                let ghost old_chunks = c.chunks@;
                proof {
                    lemma_chunk_objects_len(old_chunks, old_chunks.len());
                }
                let ghost total = crate::chunked_db::objects_in(old_chunks, old_chunks.len());
                let mut start: usize = 0;
                let mut k: usize = 0;
                while k < c.chunks.len()
                    invariant
                        k <= c.chunks@.len(),
                        c.chunks@.len() == old_chunks.len(),
                        c.db2 == old_c.db2,
                        c.map_version == old_c.map_version,
                        old_chunks == old_c.chunks@,
                        zdos@.len() == total,
                        total == crate::chunked_db::objects_in(old_chunks, old_chunks.len()),
                        start == crate::chunked_db::objects_in(old_chunks, k as nat),
                        start <= zdos@.len(),
                        chunk_objects(c.chunks@, k as nat) == zdo_models(zdos@).take(start as int),
                        forall|q: int|
                            0 <= q < old_chunks.len() ==> {
                                &&& (#[trigger] c.chunks@[q]).info == old_chunks[q].info
                                &&& c.chunks@[q].file.version == old_chunks[q].file.version
                                &&& c.chunks@[q].file.zdos@.len() == old_chunks[q].file.zdos@.len()
                            },
                        forall|q: int| k <= q < old_chunks.len() ==> #[trigger] c.chunks@[q] == old_chunks[q],
                    decreases c.chunks@.len() - k,
                {
                    proof {
                        crate::chunked_db::lemma_objects_in_monotone(old_chunks, (k + 1) as nat, old_chunks.len());
                    }
                    let size = c.chunks[k].file.zdos.len();
                    assert(c.chunks@[k as int] == old_chunks[k as int]);
                    assert(start + size == crate::chunked_db::objects_in(old_chunks, (k + 1) as nat));
                    let zlen = zdos.len();
                    assert(start + size <= zlen);
                    let mut v: Vec<Zdo> = Vec::new();
                    let mut j: usize = 0;
                    while j < size
                        invariant
                            j <= size,
                            zlen == zdos@.len(),
                            start + size <= zlen,
                            v@.len() == j,
                            forall|q: int| 0 <= q < j ==> (#[trigger] v@[q]).model() == zdos@[start + q].model(),
                        decreases size - j,
                    {
                        v.push(zdos[start + j].duplicate());
                        j = j + 1;
                    }
                    let ghost before = c.chunks@;
                    let chunk = &mut c.chunks[k];
                    chunk.file.zdos = v;
                    proof {
                        assert(zdo_models(c.chunks@[k as int].file.zdos@) =~= zdo_models(zdos@).subrange(
                            start as int,
                            start + size,
                        ));
                        assert(chunk_objects(c.chunks@, k as nat) == chunk_objects(before, k as nat)) by {
                            lemma_chunk_objects_prefix(before, c.chunks@, k as nat);
                        }
                        assert(zdo_models(zdos@).take(start + size) =~= zdo_models(zdos@).take(start as int)
                            + zdo_models(zdos@).subrange(start as int, start + size));
                    }
                    start = start + size;
                    k = k + 1;
                }
                assert(zdo_models(zdos@).take(start as int) =~= zdo_models(zdos@));
                assert(same_but_objects(WorldData::Chunked(old_c), WorldData::Chunked(*c)));
            },
        }
    }
}

proof fn lemma_chunk_objects_prefix(a: Seq<Chunk>, b: Seq<Chunk>, n: nat)
    requires
        n <= a.len(),
        n <= b.len(),
        forall|q: int| 0 <= q < n ==> #[trigger] a[q] == b[q],
    ensures
        chunk_objects(a, n) == chunk_objects(b, n),
    decreases n,
{
    if n > 0 {
        lemma_chunk_objects_prefix(a, b, (n - 1) as nat);
        assert(a[n - 1] == b[n - 1]);
    }
}


impl WorldData {
    /// Bring the world to the current version, which for a single-file
    /// world means the chunked layout: its objects are migrated and dealt
    /// into chunks as the game does the first time it saves an old world
    /// (see [`ChunkedDb::from_legacy`], which takes `hundredths` and `lay`).
    /// A chunked world is already there.
    pub fn upgrade<F: Fn(u32) -> i32, L: Fn(Position, Option<Rotation>) -> (u32, Position, Option<Rotation>)>(
        &mut self,
        hundredths: &F,
        lay: &L,
    )
        requires
            forall|b: u32| call_requires(*hundredths, (b,)),
            functional(*hundredths),
            forall|p: Position, q: Option<Rotation>| call_requires(*lay, (p, q)),
            lay_functional(*lay),
            forall|p: Position, q: Option<Rotation>, o: (u32, Position, Option<Rotation>)|
                call_ensures(*lay, (p, q), o) ==> o.0 < 512 * 512,
            old(self).objects().len() < 0x1000_0000,
        ensures
            match *old(self) {
                WorldData::Db(d) => *final(self) matches WorldData::Chunked(c) && crate::chunked_db::converted_from(
                    c,
                    d.model(),
                    crate::migrate::dur_of(*hundredths),
                    crate::chunked_db::lay_of(*lay),
                ),
                WorldData::Chunked(_) => *final(self) == *old(self),
            },
    {
        let converted = match self {
            WorldData::Db(d) => Some(ChunkedDb::from_legacy(d, hundredths, lay)),
            WorldData::Chunked(_) => None,
        };
        match converted {
            Some(c) => {
                *self = WorldData::Chunked(c);
            },
            None => {},
        }
    }
}

} // verus!
