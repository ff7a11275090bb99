//! `.db` world data, the single-file layout of world versions up to 39.
//!
//! Sections in order: version, net time, the object stream (`ZDOMan.Load`),
//! zone system state (`ZoneSystem.LoadOld`), random event state
//! (`RandEventSystem`), and from version 35 an optional persistent-event
//! blob (`PersistentEventSystem`).

use vstd::prelude::*;
use crate::chunk_files::{
    lemma_zdo_run_roundtrip, parse_zdo_run, read_zdo_run, run_writable, ser_zdo_run, whole_file,
    write_zdo_run, zdo_models, FileError,
};
use crate::inventory::{opt_encodable, opt_model, parse_opt, read_opt, ser_opt, write_opt};
use crate::primitives::{Bool, ByteArray, CsString, StringList, Vec2i, Vec3};
use crate::seqcodec::{
    counted_encodable, lemma_counted_roundtrip, models, parse_counted, read_counted, ser_counted,
    write_counted,
};
use crate::versions::{
    WORLD_LEGACY_CURRENT, WORLD_LOCATION_HASH, WORLD_MIN_SUPPORTED, WORLD_NET_TIME,
    WORLD_PERSISTENT_EVENTS, WORLD_RAND_EVENTS, WORLD_RAND_EVENT_DETAILS, WORLD_ZONE_GLOBAL_KEYS,
    WORLD_ZONE_LOCATIONS, WORLD_ZONE_LOCATIONS_GENERATED, WORLD_ZONE_LOCATION_PLACED,
    WORLD_ZONE_LOCATION_VERSION, WORLD_ZONE_PGW_VERSION, WORLD_ZONE_SYSTEM,
};
use crate::wire::Wire;
use crate::zdo::{Zdo, ZdoModel};

verus! {

// ---------------------------------------------------------------- counted lists

/// An `i32` count followed by that many values.
pub struct Counted<T> {
    pub items: Vec<T>,
}

impl<T: Wire> Wire for Counted<T> {
    type Model = Seq<T::Model>;

    open spec fn model(&self) -> Seq<T::Model> {
        models(self.items@)
    }

    open spec fn wire_encodable(m: Seq<T::Model>) -> bool {
        counted_encodable::<T>(m)
    }

    open spec fn wire_ser(m: Seq<T::Model>) -> Seq<u8> {
        ser_counted::<T>(m)
    }

    open spec fn wire_parse(b: Seq<u8>) -> Option<(Seq<T::Model>, int)> {
        parse_counted::<T>(b)
    }

    proof fn lemma_roundtrip(m: Seq<T::Model>, rest: Seq<u8>) {
        lemma_counted_roundtrip::<T>(m, rest);
    }

    fn read(buf: &[u8], pos: usize) -> (r: Option<(Counted<T>, usize)>) {
        match read_counted::<T>(buf, pos) {
            Some((items, p)) => Some((Counted { items }, p)),
            None => None,
        }
    }

    fn write(&self, out: &mut Vec<u8>) {
        write_counted(&self.items, out);
    }
}

// ---------------------------------------------------------------- random events

/// The random event in progress: empty name when none is.
pub struct RandEvent {
    pub name: CsString,
    /// The `f32` time as its bit pattern.
    pub time: u32,
    pub position: Vec3,
}

/// A random event's fields in file order.
pub type EventFields = (CsString, (u32, Vec3));

impl Wire for RandEvent {
    type Model = (Seq<char>, (u32, Vec3));

    open spec fn model(&self) -> (Seq<char>, (u32, Vec3)) {
        (self.name.model(), (self.time, self.position))
    }

    open spec fn wire_encodable(m: (Seq<char>, (u32, Vec3))) -> bool {
        <EventFields as Wire>::wire_encodable(m)
    }

    open spec fn wire_ser(m: (Seq<char>, (u32, Vec3))) -> Seq<u8> {
        <EventFields as Wire>::wire_ser(m)
    }

    open spec fn wire_parse(b: Seq<u8>) -> Option<((Seq<char>, (u32, Vec3)), int)> {
        <EventFields as Wire>::wire_parse(b)
    }

    proof fn lemma_roundtrip(m: (Seq<char>, (u32, Vec3)), rest: Seq<u8>) {
        <EventFields as Wire>::lemma_roundtrip(m, rest);
    }

    fn read(buf: &[u8], pos: usize) -> (r: Option<(RandEvent, usize)>) {
        match <EventFields as Wire>::read(buf, pos) {
            Some(((name, (time, position)), p)) => Some((RandEvent { name, time, position }, p)),
            None => None,
        }
    }

    fn write(&self, out: &mut Vec<u8>) {
        self.name.write(out);
        self.time.write(out);
        self.position.write(out);
        assert(out@ =~= old(out)@ + Self::wire_ser(self.model()));
    }
}

/// `RandEventSystem` state: the event timer (an `f32` as bits), and from
/// version 25 the event in progress.
pub struct RandEventData {
    pub event_timer: u32,
    pub current: Option<RandEvent>,
}

/// Random-event state as plain values.
pub struct RandEventsModel {
    pub event_timer: u32,
    pub current: Option<(Seq<char>, (u32, Vec3))>,
}

impl RandEventData {
    pub open spec fn model(&self) -> RandEventsModel {
        RandEventsModel { event_timer: self.event_timer, current: opt_model(self.current) }
    }
}

pub open spec fn ser_rand_events(m: RandEventsModel) -> Seq<u8> {
    <u32 as Wire>::wire_ser(m.event_timer) + ser_opt::<RandEvent>(m.current)
}

pub open spec fn parse_rand_events(b: Seq<u8>, version: i32) -> Option<(RandEventsModel, int)> {
    match <u32 as Wire>::wire_parse(b) {
        None => None,
        Some((t, k)) => match parse_opt::<RandEvent>(b.skip(k), version >= WORLD_RAND_EVENT_DETAILS) {
            None => None,
            Some((c, j)) => Some((RandEventsModel { event_timer: t, current: c }, k + j)),
        },
    }
}

impl RandEventData {
    pub fn read(buf: &[u8], pos: usize, version: i32) -> (r: Option<(RandEventData, usize)>)
        requires
            pos <= buf@.len(),
        ensures
            match r {
                Some((x, p)) => pos <= p <= buf@.len() && parse_rand_events(buf@.skip(pos as int), version)
                    == Some((x.model(), p - pos)),
                None => parse_rand_events(buf@.skip(pos as int), version) is None,
            },
    {
        let (t, p) = match <u32 as Wire>::read(buf, pos) {
            Some(x) => x,
            None => {
                return None;
            },
        };
        assert(buf@.skip(pos as int).skip(p - pos) =~= buf@.skip(p as int));
        match read_opt::<RandEvent>(buf, p, version >= WORLD_RAND_EVENT_DETAILS) {
            Some((c, q)) => Some((RandEventData { event_timer: t, current: c }, q)),
            None => None,
        }
    }

    pub fn write(&self, out: &mut Vec<u8>)
        requires
            opt_encodable::<RandEvent>(self.model().current),
        ensures
            final(out)@ == old(out)@ + ser_rand_events(self.model()),
    {
        self.event_timer.write(out);
        write_opt(&self.current, out);
        assert(out@ =~= old(out)@ + ser_rand_events(self.model()));
    }
}

// ---------------------------------------------------------------- locations

/// One placed or planned location. The prefab is named outright up to
/// version 39 and by its stable hash from 40; only one of the two is set.
pub struct LocationInstance {
    pub prefab_name: Option<CsString>,
    pub prefab_hash: Option<i32>,
    pub position: Vec3,
    pub placed: Option<Bool>,
}

/// A location as plain values.
pub struct LocationModel {
    pub prefab_name: Option<Seq<char>>,
    pub prefab_hash: Option<i32>,
    pub position: Vec3,
    pub placed: Option<bool>,
}

impl LocationInstance {
    pub open spec fn model(&self) -> LocationModel {
        LocationModel {
            prefab_name: opt_model(self.prefab_name),
            prefab_hash: self.prefab_hash,
            position: self.position,
            placed: opt_model(self.placed),
        }
    }
}

pub open spec fn ser_location(m: LocationModel) -> Seq<u8> {
    ser_opt::<CsString>(m.prefab_name) + ser_opt::<i32>(m.prefab_hash) + <Vec3 as Wire>::wire_ser(m.position)
        + ser_opt::<Bool>(m.placed)
}

pub open spec fn parse_location(b: Seq<u8>, version: i32) -> Option<(LocationModel, int)> {
    match parse_opt::<CsString>(b, version < WORLD_LOCATION_HASH) {
        None => None,
        Some((n, k1)) => match parse_opt::<i32>(b.skip(k1), version >= WORLD_LOCATION_HASH) {
            None => None,
            Some((h, k2)) => match <Vec3 as Wire>::wire_parse(b.skip(k1 + k2)) {
                None => None,
                Some((p, k3)) => match parse_opt::<Bool>(
                    b.skip(k1 + k2 + k3),
                    version >= WORLD_ZONE_LOCATION_PLACED,
                ) {
                    None => None,
                    Some((pl, k4)) => Some(
                        (
                            LocationModel { prefab_name: n, prefab_hash: h, position: p, placed: pl },
                            k1 + k2 + k3 + k4,
                        ),
                    ),
                },
            },
        },
    }
}

/// Whether a location can be written: its name fits its length prefix.
pub open spec fn location_encodable(m: LocationModel) -> bool {
    opt_encodable::<CsString>(m.prefab_name)
}

impl LocationInstance {
    pub fn read(buf: &[u8], pos: usize, version: i32) -> (r: Option<(LocationInstance, usize)>)
        requires
            pos <= buf@.len(),
        ensures
            match r {
                Some((x, p)) => pos <= p <= buf@.len() && parse_location(buf@.skip(pos as int), version)
                    == Some((x.model(), p - pos)),
                None => parse_location(buf@.skip(pos as int), version) is None,
            },
    {
        let ghost b = buf@.skip(pos as int);
        let (n, p1) = match read_opt::<CsString>(buf, pos, version < WORLD_LOCATION_HASH) {
            Some(x) => x,
            None => {
                return None;
            },
        };
        assert(b.skip(p1 - pos) =~= buf@.skip(p1 as int));
        let (h, p2) = match read_opt::<i32>(buf, p1, version >= WORLD_LOCATION_HASH) {
            Some(x) => x,
            None => {
                return None;
            },
        };
        assert(b.skip(p2 - pos) =~= buf@.skip(p2 as int));
        let (position, p3) = match <Vec3 as Wire>::read(buf, p2) {
            Some(x) => x,
            None => {
                return None;
            },
        };
        assert(b.skip(p3 - pos) =~= buf@.skip(p3 as int));
        let (placed, p4) = match read_opt::<Bool>(buf, p3, version >= WORLD_ZONE_LOCATION_PLACED) {
            Some(x) => x,
            None => {
                return None;
            },
        };
        Some((LocationInstance { prefab_name: n, prefab_hash: h, position, placed }, p4))
    }

    pub fn write(&self, out: &mut Vec<u8>)
        requires
            location_encodable(self.model()),
        ensures
            final(out)@ == old(out)@ + ser_location(self.model()),
    {
        let ghost o = out@;
        write_opt(&self.prefab_name, out);
        write_opt(&self.prefab_hash, out);
        self.position.write(out);
        write_opt(&self.placed, out);
        assert(out@ =~= o + ser_location(self.model()));
    }
}

/// The models of a run of locations.
pub open spec fn location_models(s: Seq<LocationInstance>) -> Seq<LocationModel> {
    Seq::new(s.len(), |i: int| s[i].model())
}

/// `n` locations of `version` off the front of `b`.
pub open spec fn parse_location_run(b: Seq<u8>, n: nat, version: i32) -> Option<(Seq<LocationModel>, int)>
    decreases n,
{
    if n == 0 {
        Some((seq![], 0))
    } else {
        match parse_location_run(b, (n - 1) as nat, version) {
            None => None,
            Some((ms, k)) => match parse_location(b.skip(k), version) {
                None => None,
                Some((m, j)) => Some((ms.push(m), k + j)),
            },
        }
    }
}

/// An `i32` count of locations (negative refused), then the locations.
pub open spec fn parse_locations(b: Seq<u8>, version: i32) -> Option<(Seq<LocationModel>, int)> {
    match <i32 as Wire>::wire_parse(b) {
        None => None,
        Some((c, k)) => if c < 0 {
            None
        } else {
            match parse_location_run(b.skip(k), c as nat, version) {
                None => None,
                Some((ms, j)) => Some((ms, k + j)),
            }
        },
    }
}

pub open spec fn ser_location_run(ms: Seq<LocationModel>) -> Seq<u8>
    decreases ms.len(),
{
    if ms.len() == 0 {
        seq![]
    } else {
        ser_location_run(ms.drop_last()) + ser_location(ms.last())
    }
}

pub open spec fn ser_locations(ms: Seq<LocationModel>) -> Seq<u8> {
    <i32 as Wire>::wire_ser(ms.len() as i32) + ser_location_run(ms)
}

proof fn lemma_location_run_none(b: Seq<u8>, m: nat, n: nat, version: i32)
    requires
        parse_location_run(b, m, version) is None,
        m <= n,
    ensures
        parse_location_run(b, n, version) is None,
    decreases n - m,
{
    if m < n {
        lemma_location_run_none(b, m + 1, n, version);
    }
}

/// Read a counted run of locations at `pos`.
pub fn read_locations(buf: &[u8], pos: usize, version: i32) -> (r: Option<(Vec<LocationInstance>, usize)>)
    requires
        pos <= buf@.len(),
    ensures
        match r {
            Some((v, p)) => pos <= p <= buf@.len() && parse_locations(buf@.skip(pos as int), version) == Some(
                (location_models(v@), p - pos),
            ),
            None => parse_locations(buf@.skip(pos as int), version) is None,
        },
{
    let (c, p0) = match <i32 as Wire>::read(buf, pos) {
        Some(x) => x,
        None => {
            return None;
        },
    };
    if c < 0 {
        return None;
    }
    let n = c as usize;
    let ghost b = buf@.skip(p0 as int);
    assert(buf@.skip(pos as int).skip(p0 - pos) =~= b);
    let mut v: Vec<LocationInstance> = Vec::new();
    let mut p = p0;
    let mut i: usize = 0;
    assert(location_models(v@) =~= seq![]);
    while i < n
        invariant
            i <= n,
            p0 <= p <= buf@.len(),
            pos <= p0,
            b == buf@.skip(p0 as int),
            <i32 as Wire>::wire_parse(buf@.skip(pos as int)) == Some((c, p0 - pos)),
            c >= 0,
            n == c as usize,
            buf@.skip(pos as int).skip(p0 - pos) == b,
            parse_location_run(b, i as nat, version) == Some((location_models(v@), p - p0)),
        decreases n - i,
    {
        assert(b.skip(p - p0) =~= buf@.skip(p as int));
        let ghost olds = v@;
        match LocationInstance::read(buf, p, version) {
            Some((x, q)) => {
                let ghost xm = x.model();
                v.push(x);
                p = q;
                i = i + 1;
                assert(location_models(v@) =~= location_models(olds).push(xm));
            },
            None => {
                proof {
                    lemma_location_run_none(b, (i + 1) as nat, n as nat, version);
                }
                return None;
            },
        }
    }
    Some((v, p))
}

/// Write a counted run of locations.
pub fn write_locations(v: &Vec<LocationInstance>, out: &mut Vec<u8>)
    requires
        v@.len() <= i32::MAX,
        forall|i: int| 0 <= i < v@.len() ==> location_encodable(#[trigger] v@[i].model()),
    ensures
        final(out)@ == old(out)@ + ser_locations(location_models(v@)),
{
    let ghost ms = location_models(v@);
    let ghost o = out@;
    (v.len() as i32).write(out);
    let ghost head = out@;
    let mut i: usize = 0;
    while i < v.len()
        invariant
            i <= v@.len(),
            ms == location_models(v@),
            forall|i: int| 0 <= i < v@.len() ==> location_encodable(#[trigger] v@[i].model()),
            out@ == head + ser_location_run(ms.take(i as int)),
        decreases v@.len() - i,
    {
        v[i].write(out);
        proof {
            assert(ms.take(i + 1).drop_last() =~= ms.take(i as int));
        }
        i = i + 1;
        assert(out@ =~= head + ser_location_run(ms.take(i as int)));
    }
    assert(ms.take(i as int) =~= ms);
    assert(out@ =~= o + ser_locations(ms));
}


// ---------------------------------------------------------------- zone system

/// `ZoneSystem.SaveOld` / `LoadOld` state. Each optional field is there
/// exactly when the version carries it.
pub struct ZoneSystemData {
    pub generated_zones: Counted<Vec2i>,
    /// Always written as 0 by the game.
    pub pgw_version: Option<i32>,
    pub location_version: Option<i32>,
    pub global_keys: Option<StringList>,
    pub locations_generated: Option<Bool>,
    pub locations: Option<Vec<LocationInstance>>,
}

/// Zone-system state as plain values.
pub struct ZoneModel {
    pub generated_zones: Seq<Vec2i>,
    pub pgw_version: Option<i32>,
    pub location_version: Option<i32>,
    pub global_keys: Option<Seq<Seq<char>>>,
    pub locations_generated: Option<bool>,
    pub locations: Option<Seq<LocationModel>>,
}

impl ZoneSystemData {
    pub open spec fn model(&self) -> ZoneModel {
        ZoneModel {
            generated_zones: self.generated_zones.model(),
            pgw_version: self.pgw_version,
            location_version: self.location_version,
            global_keys: opt_model(self.global_keys),
            locations_generated: opt_model(self.locations_generated),
            locations: match self.locations {
                Some(v) => Some(location_models(v@)),
                None => None,
            },
        }
    }
}

pub open spec fn ser_zone_locations(m: Option<Seq<LocationModel>>) -> Seq<u8> {
    match m {
        Some(ls) => ser_locations(ls),
        None => seq![],
    }
}

#[verifier::opaque]
pub open spec fn ser_zone_head(m: ZoneModel) -> Seq<u8> {
    <Counted<Vec2i> as Wire>::wire_ser(m.generated_zones) + ser_opt::<i32>(m.pgw_version) + ser_opt::<i32>(
        m.location_version,
    )
}

#[verifier::opaque]
pub open spec fn ser_zone_tail(m: ZoneModel) -> Seq<u8> {
    ser_opt::<StringList>(m.global_keys) + ser_opt::<Bool>(m.locations_generated) + ser_zone_locations(
        m.locations,
    )
}

pub open spec fn ser_zone_system(m: ZoneModel) -> Seq<u8> {
    ser_zone_head(m) + ser_zone_tail(m)
}

/// The first three fields: zones, pgw version, location version.
#[verifier::opaque]
pub open spec fn parse_zone_head(b: Seq<u8>, version: i32) -> Option<((Seq<Vec2i>, Option<i32>, Option<i32>), int)> {
    match <Counted<Vec2i> as Wire>::wire_parse(b) {
        None => None,
        Some((z, k1)) => match parse_opt::<i32>(b.skip(k1), version >= WORLD_ZONE_PGW_VERSION) {
            None => None,
            Some((pg, k2)) => match parse_opt::<i32>(b.skip(k1 + k2), version >= WORLD_ZONE_LOCATION_VERSION) {
                None => None,
                Some((lv, k3)) => Some(((z, pg, lv), k1 + k2 + k3)),
            },
        },
    }
}

/// The last three fields: global keys, whether locations were generated,
/// the locations.
#[verifier::opaque]
pub open spec fn parse_zone_tail(b: Seq<u8>, version: i32) -> Option<
    ((Option<Seq<Seq<char>>>, Option<bool>, Option<Seq<LocationModel>>), int),
> {
    match parse_opt::<StringList>(b, version >= WORLD_ZONE_GLOBAL_KEYS) {
        None => None,
        Some((g, k1)) => match parse_opt::<Bool>(b.skip(k1), version >= WORLD_ZONE_LOCATIONS_GENERATED) {
            None => None,
            Some((lg, k2)) => if version >= WORLD_ZONE_LOCATIONS {
                match parse_locations(b.skip(k1 + k2), version) {
                    None => None,
                    Some((ls, k3)) => Some(((g, lg, Some(ls)), k1 + k2 + k3)),
                }
            } else {
                Some(((g, lg, None), k1 + k2))
            },
        },
    }
}

/// Zone-system state of `version` off the front of `b`.
pub open spec fn parse_zone_system(b: Seq<u8>, version: i32) -> Option<(ZoneModel, int)> {
    match parse_zone_head(b, version) {
        None => None,
        Some((h, k)) => match parse_zone_tail(b.skip(k), version) {
            None => None,
            Some((t, j)) => Some(
                (
                    ZoneModel {
                        generated_zones: h.0,
                        pgw_version: h.1,
                        location_version: h.2,
                        global_keys: t.0,
                        locations_generated: t.1,
                        locations: t.2,
                    },
                    k + j,
                ),
            ),
        },
    }
}

/// Whether zone-system state can be written: its lists fit their counts and
/// its strings their length prefixes.
pub open spec fn zone_encodable(m: ZoneModel) -> bool {
    &&& <Counted<Vec2i> as Wire>::wire_encodable(m.generated_zones)
    &&& opt_encodable::<StringList>(m.global_keys)
    &&& match m.locations {
        Some(ls) => ls.len() <= i32::MAX && forall|i: int| 0 <= i < ls.len() ==> location_encodable(#[trigger] ls[i]),
        None => true,
    }
}

#[verifier::spinoff_prover]
fn read_zone_head(buf: &[u8], pos: usize, version: i32) -> (r: Option<(Counted<Vec2i>, Option<i32>, Option<i32>, usize)>)
    requires
        pos <= buf@.len(),
    ensures
        match r {
            Some((z, pg, lv, p)) => pos <= p <= buf@.len() && parse_zone_head(buf@.skip(pos as int), version)
                == Some(((z.model(), pg, lv), p - pos)),
            None => parse_zone_head(buf@.skip(pos as int), version) is None,
        },
{
    reveal(parse_zone_head);
    let ghost b = buf@.skip(pos as int);
    let (zones, p1) = match <Counted<Vec2i> as Wire>::read(buf, pos) {
        Some(x) => x,
        None => {
            return None;
        },
    };
    assert(b.skip(p1 - pos) =~= buf@.skip(p1 as int));
    let (pgw, p2) = match read_opt::<i32>(buf, p1, version >= WORLD_ZONE_PGW_VERSION) {
        Some(x) => x,
        None => {
            return None;
        },
    };
    assert(b.skip(p2 - pos) =~= buf@.skip(p2 as int));
    let (lv, p3) = match read_opt::<i32>(buf, p2, version >= WORLD_ZONE_LOCATION_VERSION) {
        Some(x) => x,
        None => {
            return None;
        },
    };
    Some((zones, pgw, lv, p3))
}

#[verifier::spinoff_prover]
#[verifier::rlimit(40)]
fn read_zone_tail(buf: &[u8], pos: usize, version: i32) -> (r: Option<
    (Option<StringList>, Option<Bool>, Option<Vec<LocationInstance>>, usize),
>)
    requires
        pos <= buf@.len(),
    ensures
        match r {
            Some((g, lg, ls, p)) => pos <= p <= buf@.len() && parse_zone_tail(buf@.skip(pos as int), version)
                == Some(
                (
                    (
                        opt_model(g),
                        opt_model(lg),
                        match ls {
                            Some(v) => Some(location_models(v@)),
                            None => None,
                        },
                    ),
                    p - pos,
                ),
            ),
            None => parse_zone_tail(buf@.skip(pos as int), version) is None,
        },
{
    reveal(parse_zone_tail);
    let ghost t = buf@.skip(pos as int);
    let (keys, p4) = match read_opt::<StringList>(buf, pos, version >= WORLD_ZONE_GLOBAL_KEYS) {
        Some(x) => x,
        None => {
            return None;
        },
    };
    assert(t.skip(p4 - pos) =~= buf@.skip(p4 as int));
    let (generated, p5) = match read_opt::<Bool>(buf, p4, version >= WORLD_ZONE_LOCATIONS_GENERATED) {
        Some(x) => x,
        None => {
            return None;
        },
    };
    assert(t.skip(p5 - pos) =~= buf@.skip(p5 as int));
    if version >= WORLD_ZONE_LOCATIONS {
        match read_locations(buf, p5, version) {
            Some((v, q)) => Some((keys, generated, Some(v), q)),
            None => None,
        }
    } else {
        Some((keys, generated, None, p5))
    }
}

impl ZoneSystemData {
    pub fn read(buf: &[u8], pos: usize, version: i32) -> (r: Option<(ZoneSystemData, usize)>)
        requires
            pos <= buf@.len(),
        ensures
            match r {
                Some((x, p)) => pos <= p <= buf@.len() && parse_zone_system(buf@.skip(pos as int), version)
                    == Some((x.model(), p - pos)),
                None => parse_zone_system(buf@.skip(pos as int), version) is None,
            },
    {
        let (zones, pgw, lv, p3) = match read_zone_head(buf, pos, version) {
            Some(x) => x,
            None => {
                return None;
            },
        };
        assert(buf@.skip(pos as int).skip(p3 - pos) =~= buf@.skip(p3 as int));
        let (keys, generated, locations, p6) = match read_zone_tail(buf, p3, version) {
            Some(x) => x,
            None => {
                return None;
            },
        };
        Some(
            (
                ZoneSystemData {
                    generated_zones: zones,
                    pgw_version: pgw,
                    location_version: lv,
                    global_keys: keys,
                    locations_generated: generated,
                    locations,
                },
                p6,
            ),
        )
    }

    fn write_head(&self, out: &mut Vec<u8>)
        requires
            zone_encodable(self.model()),
        ensures
            final(out)@ == old(out)@ + ser_zone_head(self.model()),
    {
        reveal(ser_zone_head);
        let ghost o = out@;
        self.generated_zones.write(out);
        write_opt(&self.pgw_version, out);
        write_opt(&self.location_version, out);
        assert(out@ =~= o + ser_zone_head(self.model()));
    }

    fn write_tail(&self, out: &mut Vec<u8>)
        requires
            zone_encodable(self.model()),
        ensures
            final(out)@ == old(out)@ + ser_zone_tail(self.model()),
    {
        reveal(ser_zone_tail);
        let ghost o = out@;
        write_opt(&self.global_keys, out);
        write_opt(&self.locations_generated, out);
        let ghost o2 = out@;
        match &self.locations {
            Some(v) => {
                proof {
                    assert forall|i: int| 0 <= i < v@.len() implies location_encodable(#[trigger] v@[i].model()) by {
                        assert(location_models(v@)[i] == v@[i].model());
                    }
                }
                write_locations(v, out);
            },
            None => {},
        }
        assert(out@ =~= o + ser_zone_tail(self.model()));
    }

    pub fn write(&self, out: &mut Vec<u8>)
        requires
            zone_encodable(self.model()),
        ensures
            final(out)@ == old(out)@ + ser_zone_system(self.model()),
    {
        let ghost o = out@;
        self.write_head(out);
        self.write_tail(out);
        assert(out@ =~= o + ser_zone_system(self.model()));
    }
}


// ---------------------------------------------------------------- the whole file

/// `ZDOMan.SaveAsync` / `ZDOMan.Load` for version 31 up: the saving
/// session, the next object id, and the objects behind an `i32` count.
pub struct ZdoSection {
    pub session_id: i64,
    pub next_uid: u32,
    pub zdos: Vec<Zdo>,
}

pub struct WorldDb {
    pub version: i32,
    /// The `f64` net time as its bit pattern; there from version 4.
    pub net_time: Option<u64>,
    pub zdos: ZdoSection,
    pub zone_system: Option<ZoneSystemData>,
    pub rand_events: Option<RandEventData>,
    /// `PersistentEventSystem` state, kept opaque. From version 35, and only
    /// when the file has bytes left for it.
    pub persistent_events: Option<ByteArray>,
}

/// A `.db` as plain values.
pub struct DbModel {
    pub version: i32,
    pub net_time: Option<u64>,
    pub session_id: i64,
    pub next_uid: u32,
    pub zdos: Seq<ZdoModel>,
    pub zone_system: Option<ZoneModel>,
    pub rand_events: Option<RandEventsModel>,
    pub persistent_events: Option<Seq<u8>>,
}

impl WorldDb {
    pub open spec fn model(&self) -> DbModel {
        DbModel {
            version: self.version,
            net_time: self.net_time,
            session_id: self.zdos.session_id,
            next_uid: self.zdos.next_uid,
            zdos: zdo_models(self.zdos.zdos@),
            zone_system: match self.zone_system {
                Some(z) => Some(z.model()),
                None => None,
            },
            rand_events: match self.rand_events {
                Some(e) => Some(e.model()),
                None => None,
            },
            persistent_events: opt_model(self.persistent_events),
        }
    }
}

/// The version, net time and object section off the front of `b`.
#[verifier::opaque]
pub open spec fn parse_db_head(b: Seq<u8>) -> Option<((i32, Option<u64>, i64, u32, Seq<ZdoModel>), int)> {
    match <i32 as Wire>::wire_parse(b) {
        None => None,
        Some((v, k1)) => match parse_opt::<u64>(b.skip(k1), v >= WORLD_NET_TIME) {
            None => None,
            Some((t, k2)) => match <i64 as Wire>::wire_parse(b.skip(k1 + k2)) {
                None => None,
                Some((s, k3)) => match <u32 as Wire>::wire_parse(b.skip(k1 + k2 + k3)) {
                    None => None,
                    Some((u, k4)) => match <i32 as Wire>::wire_parse(b.skip(k1 + k2 + k3 + k4)) {
                        None => None,
                        Some((c, k5)) => if c < 0 {
                            None
                        } else {
                            match parse_zdo_run(b.skip(k1 + k2 + k3 + k4 + k5), c as nat, v) {
                                None => None,
                                Some((zs, k6)) => Some(((v, t, s, u, zs), k1 + k2 + k3 + k4 + k5 + k6)),
                            }
                        },
                    },
                },
            },
        },
    }
}

/// The persistent-event blob of a `version` file off the front of `b`:
/// there from version 35 when at least four bytes are left.
pub open spec fn parse_persistent(b: Seq<u8>, version: i32) -> Option<(Option<Seq<u8>>, int)> {
    if version >= WORLD_PERSISTENT_EVENTS && b.len() >= 4 {
        match <ByteArray as Wire>::wire_parse(b) {
            Some((x, k)) => Some((Some(x), k)),
            None => None,
        }
    } else {
        Some((None, 0))
    }
}

/// The zone system, random events and persistent events of a `version`
/// file off the front of `b`.
#[verifier::opaque]
pub open spec fn parse_db_tail(b: Seq<u8>, version: i32) -> Option<
    ((Option<ZoneModel>, Option<RandEventsModel>, Option<Seq<u8>>), int),
> {
    let zone = if version >= WORLD_ZONE_SYSTEM {
        match parse_zone_system(b, version) {
            Some((z, k)) => Some((Some(z), k)),
            None => None,
        }
    } else {
        Some((None, 0))
    };
    match zone {
        None => None,
        Some((z, k1)) => {
            let events = if version >= WORLD_RAND_EVENTS {
                match parse_rand_events(b.skip(k1), version) {
                    Some((e, k)) => Some((Some(e), k)),
                    None => None,
                }
            } else {
                Some((None, 0))
            };
            match events {
                None => None,
                Some((e, k2)) => match parse_persistent(b.skip(k1 + k2), version) {
                    None => None,
                    Some((pe, k3)) => Some(((z, e, pe), k1 + k2 + k3)),
                },
            }
        },
    }
}

/// A `.db` off the front of `b`.
pub open spec fn parse_world_db(b: Seq<u8>) -> Option<(DbModel, int)> {
    match parse_db_head(b) {
        None => None,
        Some((h, k)) => match parse_db_tail(b.skip(k), h.0) {
            None => None,
            Some((t, j)) => Some(
                (
                    DbModel {
                        version: h.0,
                        net_time: h.1,
                        session_id: h.2,
                        next_uid: h.3,
                        zdos: h.4,
                        zone_system: t.0,
                        rand_events: t.1,
                        persistent_events: t.2,
                    },
                    k + j,
                ),
            ),
        },
    }
}

/// What reading all of `b` as a `.db` gives: too old a version is refused,
/// else the content when it fills `b`.
pub open spec fn db_parsed(b: Seq<u8>, r: Result<DbModel, FileError>) -> bool {
    match <i32 as Wire>::wire_parse(b) {
        Some((v, _)) => if v < WORLD_MIN_SUPPORTED {
            r == Err::<DbModel, FileError>(FileError::VersionTooOld { version: v, oldest: WORLD_MIN_SUPPORTED })
        } else {
            whole_file(parse_world_db(b), b.len(), r)
        },
        None => whole_file(parse_world_db(b), b.len(), r),
    }
}

#[verifier::opaque]
pub open spec fn ser_db_head(m: DbModel) -> Seq<u8> {
    <i32 as Wire>::wire_ser(m.version) + ser_opt::<u64>(m.net_time) + <i64 as Wire>::wire_ser(m.session_id)
        + <u32 as Wire>::wire_ser(m.next_uid) + <i32 as Wire>::wire_ser(m.zdos.len() as i32) + ser_zdo_run(
        m.zdos,
        m.version,
    )
}

#[verifier::opaque]
pub open spec fn ser_db_tail(m: DbModel) -> Seq<u8> {
    (match m.zone_system {
        Some(z) => ser_zone_system(z),
        None => seq![],
    }) + (match m.rand_events {
        Some(e) => ser_rand_events(e),
        None => seq![],
    }) + ser_opt::<ByteArray>(m.persistent_events)
}

/// The bytes of a `.db`: every part that is there, in file order.
pub open spec fn ser_world_db(m: DbModel) -> Seq<u8> {
    ser_db_head(m) + ser_db_tail(m)
}

/// Whether the parts after the objects can be written: strings, lists and
/// the blob fit their length prefixes.
pub open spec fn db_tail_encodable(m: DbModel) -> bool {
    &&& match m.zone_system {
        Some(z) => zone_encodable(z),
        None => true,
    }
    &&& match m.rand_events {
        Some(e) => opt_encodable::<RandEvent>(e.current),
        None => true,
    }
    &&& opt_encodable::<ByteArray>(m.persistent_events)
}

/// Whether a `.db` can be written.
pub open spec fn db_writable(m: DbModel) -> bool {
    &&& m.zdos.len() <= i32::MAX
    &&& run_writable(m.zdos, m.version)
    &&& db_tail_encodable(m)
}

fn read_db_head(buf: &[u8]) -> (r: Option<(i32, Option<u64>, i64, u32, Vec<Zdo>, usize)>)
    ensures
        match r {
            Some((v, t, s, u, zs, p)) => p <= buf@.len() && parse_db_head(buf@) == Some(
                ((v, t, s, u, zdo_models(zs@)), p as int),
            ),
            None => parse_db_head(buf@) is None,
        },
{
    reveal(parse_db_head);
    let ghost b = buf@;
    assert(buf@.skip(0) =~= b);
    let (v, p1) = match <i32 as Wire>::read(buf, 0) {
        Some(x) => x,
        None => {
            return None;
        },
    };
    let (t, p2) = match read_opt::<u64>(buf, p1, v >= WORLD_NET_TIME) {
        Some(x) => x,
        None => {
            return None;
        },
    };
    assert(b.skip(p2 as int) =~= buf@.skip(p2 as int));
    let (s, p3) = match <i64 as Wire>::read(buf, p2) {
        Some(x) => x,
        None => {
            return None;
        },
    };
    let (u, p4) = match <u32 as Wire>::read(buf, p3) {
        Some(x) => x,
        None => {
            return None;
        },
    };
    let (c, p5) = match <i32 as Wire>::read(buf, p4) {
        Some(x) => x,
        None => {
            return None;
        },
    };
    if c < 0 {
        return None;
    }
    match read_zdo_run(buf, p5, c as usize, v) {
        Some((zs, p6)) => Some((v, t, s, u, zs, p6)),
        None => None,
    }
}

fn read_db_tail(buf: &[u8], pos: usize, version: i32) -> (r: Option<
    (Option<ZoneSystemData>, Option<RandEventData>, Option<ByteArray>, usize),
>)
    requires
        pos <= buf@.len(),
    ensures
        match r {
            Some((z, e, pe, p)) => pos <= p <= buf@.len() && parse_db_tail(buf@.skip(pos as int), version)
                == Some(
                (
                    (
                        match z {
                            Some(z) => Some(z.model()),
                            None => None,
                        },
                        match e {
                            Some(e) => Some(e.model()),
                            None => None,
                        },
                        opt_model(pe),
                    ),
                    p - pos,
                ),
            ),
            None => parse_db_tail(buf@.skip(pos as int), version) is None,
        },
{
    reveal(parse_db_tail);
    let ghost b = buf@.skip(pos as int);
    let (z, p1) = if version >= WORLD_ZONE_SYSTEM {
        match ZoneSystemData::read(buf, pos, version) {
            Some((z, q)) => (Some(z), q),
            None => {
                return None;
            },
        }
    } else {
        (None, pos)
    };
    assert(b.skip(p1 - pos) =~= buf@.skip(p1 as int));
    let (e, p2) = if version >= WORLD_RAND_EVENTS {
        match RandEventData::read(buf, p1, version) {
            Some((e, q)) => (Some(e), q),
            None => {
                return None;
            },
        }
    } else {
        (None, p1)
    };
    assert(b.skip(p2 - pos) =~= buf@.skip(p2 as int));
    if version >= WORLD_PERSISTENT_EVENTS && buf.len() - p2 >= 4 {
        match <ByteArray as Wire>::read(buf, p2) {
            Some((x, q)) => Some((z, e, Some(x), q)),
            None => None,
        }
    } else {
        Some((z, e, None, p2))
    }
}

impl WorldDb {
    /// Read a whole `.db` file.
    pub fn parse(bytes: &[u8]) -> (r: Result<WorldDb, FileError>)
        ensures
            db_parsed(
                bytes@,
                match r {
                    Ok(db) => Ok(db.model()),
                    Err(e) => Err(e),
                },
            ),
    {
        assert(bytes@.skip(0) =~= bytes@);
        match <i32 as Wire>::read(bytes, 0) {
            Some((v, _)) => if v < WORLD_MIN_SUPPORTED {
                return Err(FileError::VersionTooOld { version: v, oldest: WORLD_MIN_SUPPORTED });
            },
            None => {},
        }
        let (v, t, s, u, zs, p) = match read_db_head(bytes) {
            Some(x) => x,
            None => {
                return Err(FileError::Malformed);
            },
        };
        let (z, e, pe, q) = match read_db_tail(bytes, p, v) {
            Some(x) => x,
            None => {
                return Err(FileError::Malformed);
            },
        };
        if q != bytes.len() {
            return Err(FileError::TrailingBytes { count: bytes.len() - q });
        }
        Ok(
            WorldDb {
                version: v,
                net_time: t,
                zdos: ZdoSection { session_id: s, next_uid: u, zdos: zs },
                zone_system: z,
                rand_events: e,
                persistent_events: pe,
            },
        )
    }
}


pub fn string_list_fits(l: &StringList) -> (r: bool)
    ensures
        r == <StringList as Wire>::wire_encodable(l.model()),
{
    let n = l.items.len();
    if n > 0x7FFF_FFFF {
        return false;
    }
    let mut i: usize = 0;
    while i < n
        invariant
            i <= n,
            n == l.items@.len(),
            forall|j: int| 0 <= j < i ==> #[trigger] <CsString as Wire>::wire_encodable(l.model()[j]),
        decreases n - i,
    {
        assert(l.model()[i as int] == l.items@[i as int].model());
        if !crate::inventory::string_fits(&l.items[i]) {
            return false;
        }
        i = i + 1;
    }
    true
}

fn zone_fits(z: &ZoneSystemData) -> (r: bool)
    ensures
        r == zone_encodable(z.model()),
{
    if z.generated_zones.items.len() > 0x7FFF_FFFF {
        return false;
    }
    let keys = match &z.global_keys {
        Some(k) => string_list_fits(k),
        None => true,
    };
    if !keys {
        return false;
    }
    match &z.locations {
        Some(v) => {
            if v.len() > 0x7FFF_FFFF {
                return false;
            }
            let mut i: usize = 0;
            while i < v.len()
                invariant
                    i <= v@.len(),
                    v@.len() <= i32::MAX,
                    z.model().locations == Some(location_models(v@)),
                    <Counted<Vec2i> as Wire>::wire_encodable(z.model().generated_zones),
                    opt_encodable::<StringList>(z.model().global_keys),
                    forall|j: int| 0 <= j < i ==> location_encodable(#[trigger] location_models(v@)[j]),
                decreases v@.len() - i,
            {
                assert(location_models(v@)[i as int] == v@[i as int].model());
                let ok = match &v[i].prefab_name {
                    Some(n) => crate::inventory::string_fits(n),
                    None => true,
                };
                if !ok {
                    assert(!location_encodable(location_models(v@)[i as int]));
                    return false;
                }
                i = i + 1;
            }
            true
        },
        None => true,
    }
}

impl WorldDb {
    fn tail_fits(&self) -> (r: bool)
        ensures
            r == db_tail_encodable(self.model()),
    {
        let z = match &self.zone_system {
            Some(z) => zone_fits(z),
            None => true,
        };
        let e = match &self.rand_events {
            Some(e) => match &e.current {
                Some(c) => crate::inventory::string_fits(&c.name),
                None => true,
            },
            None => true,
        };
        let pe = match &self.persistent_events {
            Some(b) => b.data.len() <= 0x7FFF_FFFF,
            None => true,
        };
        z && e && pe
    }

    fn write_tail(&self, out: &mut Vec<u8>)
        requires
            db_tail_encodable(self.model()),
        ensures
            final(out)@ == old(out)@ + ser_db_tail(self.model()),
    {
        reveal(ser_db_tail);
        let ghost o = out@;
        match &self.zone_system {
            Some(z) => z.write(out),
            None => {},
        }
        match &self.rand_events {
            Some(e) => e.write(out),
            None => {},
        }
        write_opt(&self.persistent_events, out);
        assert(out@ =~= o + ser_db_tail(self.model()));
    }

    /// The bytes of the `.db` file. Refused when there are more objects than
    /// an `i32` counts, an object cannot be written at the file's version, or
    /// a string, list or blob is too long for its length prefix.
    pub fn to_bytes(&self) -> (r: Result<Vec<u8>, FileError>)
        ensures
            match r {
                Ok(b) => db_writable(self.model()) && b@ == ser_world_db(self.model()),
                Err(FileError::TooManyEntries { count }) => count == self.zdos.zdos@.len() && count > i32::MAX,
                Err(FileError::Object(_)) => self.zdos.zdos@.len() <= i32::MAX && !run_writable(
                    self.model().zdos,
                    self.version,
                ),
                Err(FileError::ValueTooLarge) => self.zdos.zdos@.len() <= i32::MAX && !db_writable(self.model()),
                Err(_) => false,
            },
    {
        let ghost m = self.model();
        let n = self.zdos.zdos.len();
        if n > 0x7FFF_FFFF {
            return Err(FileError::TooManyEntries { count: n });
        }
        if !self.tail_fits() {
            return Err(FileError::ValueTooLarge);
        }
        let mut out: Vec<u8> = Vec::new();
        self.version.write(&mut out);
        write_opt(&self.net_time, &mut out);
        self.zdos.session_id.write(&mut out);
        self.zdos.next_uid.write(&mut out);
        (n as i32).write(&mut out);
        match write_zdo_run(&self.zdos.zdos, &mut out, self.version) {
            Ok(()) => {},
            Err(e) => {
                return Err(e);
            },
        }
        proof {
            reveal(ser_db_head);
        }
        assert(out@ =~= ser_db_head(m));
        self.write_tail(&mut out);
        assert(out@ =~= ser_world_db(m));
        Ok(out)
    }
}

// ---------------------------------------------------------------- upgrading

/// The value in `o`, or `d`.
pub open spec fn or_else<T>(o: Option<T>, d: T) -> T {
    match o {
        Some(x) => x,
        None => d,
    }
}

/// Locations with `placed` filled in as `false` where missing.
pub open spec fn placed_filled(ls: Seq<LocationModel>) -> Seq<LocationModel> {
    Seq::new(ls.len(), |i: int| LocationModel { placed: Some(or_else(ls[i].placed, false)), ..ls[i] })
}

/// Zone-system state with every field the newest single-file version has,
/// missing ones at the game's defaults.
pub open spec fn upgraded_zone(z: ZoneModel) -> ZoneModel {
    ZoneModel {
        generated_zones: z.generated_zones,
        pgw_version: Some(or_else(z.pgw_version, 0)),
        location_version: Some(or_else(z.location_version, 0)),
        global_keys: Some(or_else(z.global_keys, seq![])),
        locations_generated: Some(or_else(z.locations_generated, false)),
        locations: Some(placed_filled(or_else(z.locations, seq![]))),
    }
}

/// Zone-system state with nothing in it.
pub open spec fn empty_zone() -> ZoneModel {
    ZoneModel {
        generated_zones: seq![],
        pgw_version: None,
        location_version: None,
        global_keys: None,
        locations_generated: None,
        locations: None,
    }
}

/// No random event: empty name, time and position zero.
pub open spec fn no_event() -> (Seq<char>, (u32, Vec3)) {
    (seq![], (0, Vec3 { x: 0, y: 0, z: 0 }))
}

/// A `.db` at the newest version the layout carries, with every field
/// absent from older versions filled with the game's defaults.
pub open spec fn upgraded_db(m: DbModel) -> DbModel {
    let e = or_else(m.rand_events, RandEventsModel { event_timer: 0, current: None });
    DbModel {
        version: WORLD_LEGACY_CURRENT,
        net_time: Some(or_else(m.net_time, 0)),
        zone_system: Some(upgraded_zone(or_else(m.zone_system, empty_zone()))),
        rand_events: Some(RandEventsModel { event_timer: e.event_timer, current: Some(or_else(e.current, no_event())) }),
        ..m
    }
}

fn fill_placed(v: Vec<LocationInstance>) -> (r: Vec<LocationInstance>)
    ensures
        location_models(r@) == placed_filled(location_models(v@)),
{
    let mut r: Vec<LocationInstance> = Vec::new();
    let mut i: usize = 0;
    while i < v.len()
        invariant
            i <= v@.len(),
            r@.len() == i,
            forall|j: int| 0 <= j < i ==> (#[trigger] r@[j]).model() == placed_filled(location_models(v@))[j],
        decreases v@.len() - i,
    {
        let l = &v[i];
        let placed = match &l.placed {
            Some(b) => Bool(b.0),
            None => Bool(false),
        };
        let name = match &l.prefab_name {
            Some(n) => Some(n.clone()),
            None => None,
        };
        r.push(LocationInstance { prefab_name: name, prefab_hash: l.prefab_hash, position: l.position, placed: Some(placed) });
        i = i + 1;
    }
    assert(location_models(r@) =~= placed_filled(location_models(v@)));
    r
}

impl WorldDb {
    /// Fill fields absent from older versions with the game's defaults and
    /// stamp the newest version this layout can carry (39). The writer
    /// follows the version, so this is also what re-encodes property counts
    /// in the wide form.
    pub fn upgrade(&mut self)
        ensures
            final(self).model() == upgraded_db(old(self).model()),
    {
        let ghost m = self.model();
        self.version = WORLD_LEGACY_CURRENT;
        if self.net_time.is_none() {
            self.net_time = Some(0);
        }
        let zone = match self.zone_system.take() {
            Some(z) => z,
            None => ZoneSystemData {
                generated_zones: Counted { items: Vec::new() },
                pgw_version: None,
                location_version: None,
                global_keys: None,
                locations_generated: None,
                locations: None,
            },
        };
        let ghost zm = zone.model();
        let ZoneSystemData { generated_zones, pgw_version, location_version, global_keys, locations_generated, locations } = zone;
        let locations = match locations {
            Some(v) => fill_placed(v),
            None => {
                let v: Vec<LocationInstance> = Vec::new();
                assert(location_models(v@) =~= placed_filled(seq![]));
                v
            },
        };
        assert(location_models(locations@) == placed_filled(or_else(zm.locations, seq![])));
        let global_keys = match global_keys {
            Some(k) => k,
            None => {
                let k = StringList { items: Vec::new() };
                assert(k.model() =~= seq![]);
                k
            },
        };
        assert(global_keys.model() == or_else(zm.global_keys, seq![]));
        let zone = ZoneSystemData {
            generated_zones,
            pgw_version: Some(match pgw_version {
                Some(x) => x,
                None => 0,
            }),
            location_version: Some(match location_version {
                Some(x) => x,
                None => 0,
            }),
            global_keys: Some(global_keys),
            locations_generated: Some(match locations_generated {
                Some(b) => b,
                None => Bool(false),
            }),
            locations: Some(locations),
        };
        proof {
            if m.zone_system is None {
                assert(zm.generated_zones =~= seq![]);
            }
        }
        assert(zone.model() == upgraded_zone(or_else(m.zone_system, empty_zone())));
        self.zone_system = Some(zone);
        let events = match self.rand_events.take() {
            Some(e) => e,
            None => RandEventData { event_timer: 0, current: None },
        };
        let current = match events.current {
            Some(c) => c,
            None => RandEvent { name: CsString(String::new()), time: 0, position: Vec3 { x: 0, y: 0, z: 0 } },
        };
        self.rand_events = Some(RandEventData { event_timer: events.event_timer, current: Some(current) });
        assert(self.model().rand_events == upgraded_db(m).rand_events);
        assert(self.model() =~= upgraded_db(m));
    }
}


// ---------------------------------------------------------------- reading back what was written

/// Whether a location's optional fields are there exactly when `version`
/// carries them.
pub open spec fn location_fits_version(m: LocationModel, version: i32) -> bool {
    &&& (m.prefab_name is Some) == (version < WORLD_LOCATION_HASH)
    &&& (m.prefab_hash is Some) == (version >= WORLD_LOCATION_HASH)
    &&& (m.placed is Some) == (version >= WORLD_ZONE_LOCATION_PLACED)
}

/// Whether zone-system state's optional fields are there exactly when
/// `version` carries them.
pub open spec fn zone_fits_version(m: ZoneModel, version: i32) -> bool {
    &&& (m.pgw_version is Some) == (version >= WORLD_ZONE_PGW_VERSION)
    &&& (m.location_version is Some) == (version >= WORLD_ZONE_LOCATION_VERSION)
    &&& (m.global_keys is Some) == (version >= WORLD_ZONE_GLOBAL_KEYS)
    &&& (m.locations_generated is Some) == (version >= WORLD_ZONE_LOCATIONS_GENERATED)
    &&& (m.locations is Some) == (version >= WORLD_ZONE_LOCATIONS)
    &&& match m.locations {
        Some(ls) => forall|i: int| 0 <= i < ls.len() ==> location_fits_version(#[trigger] ls[i], version),
        None => true,
    }
}

/// Whether a `.db`'s parts are there exactly when its version carries them
/// (the persistent-event blob may always be left out), and its objects are
/// records of that version.
pub open spec fn db_fits_version(m: DbModel) -> bool {
    let v = m.version;
    &&& (m.net_time is Some) == (v >= WORLD_NET_TIME)
    &&& forall|i: int| 0 <= i < m.zdos.len() ==> (#[trigger] m.zdos[i]).object_type < 4
    &&& crate::zdo::compact_record(v) ==> forall|i: int| 0 <= i < m.zdos.len() ==> (#[trigger] m.zdos[i]).sector is None
    &&& (m.zone_system is Some) == (v >= WORLD_ZONE_SYSTEM)
    &&& match m.zone_system {
        Some(z) => zone_fits_version(z, v),
        None => true,
    }
    &&& (m.rand_events is Some) == (v >= WORLD_RAND_EVENTS)
    &&& match m.rand_events {
        Some(e) => (e.current is Some) == (v >= WORLD_RAND_EVENT_DETAILS),
        None => true,
    }
    &&& m.persistent_events is Some ==> v >= WORLD_PERSISTENT_EVENTS
}

proof fn lemma_opt_roundtrip_gated<T: Wire>(o: Option<T::Model>, present: bool, rest: Seq<u8>)
    requires
        opt_encodable::<T>(o),
        (o is Some) == present,
    ensures
        parse_opt::<T>(ser_opt::<T>(o) + rest, present) == Some((o, ser_opt::<T>(o).len() as int)),
        (ser_opt::<T>(o) + rest).skip(ser_opt::<T>(o).len() as int) == rest,
{
    crate::inventory::lemma_opt_roundtrip::<T>(o, rest);
    assert((ser_opt::<T>(o) + rest).skip(ser_opt::<T>(o).len() as int) =~= rest);
}

#[verifier::spinoff_prover]
#[verifier::rlimit(20)]
proof fn lemma_location_roundtrip(m: LocationModel, version: i32, rest: Seq<u8>)
    requires
        location_encodable(m),
        location_fits_version(m, version),
    ensures
        parse_location(ser_location(m) + rest, version) == Some((m, ser_location(m).len() as int)),
{
    let a = ser_opt::<CsString>(m.prefab_name);
    let h = ser_opt::<i32>(m.prefab_hash);
    let p = <Vec3 as Wire>::wire_ser(m.position);
    let pl = ser_opt::<Bool>(m.placed);
    let r3 = pl + rest;
    let r2 = p + r3;
    let r1 = h + r2;
    let b = ser_location(m) + rest;
    assert(b =~= a + r1);
    lemma_opt_roundtrip_gated::<CsString>(m.prefab_name, version < WORLD_LOCATION_HASH, r1);
    lemma_opt_roundtrip_gated::<i32>(m.prefab_hash, version >= WORLD_LOCATION_HASH, r2);
    lemma_skip_twice(b, a.len() as int, h.len() as int);
    <Vec3 as Wire>::lemma_roundtrip(m.position, r3);
    lemma_skip_prefix(p, r3);
    lemma_skip_twice(b, (a.len() + h.len()) as int, p.len() as int);
    lemma_opt_roundtrip_gated::<Bool>(m.placed, version >= WORLD_ZONE_LOCATION_PLACED, rest);
}

proof fn lemma_location_run_roundtrip(ms: Seq<LocationModel>, version: i32, rest: Seq<u8>)
    requires
        forall|i: int| 0 <= i < ms.len() ==> location_encodable(#[trigger] ms[i]),
        forall|i: int| 0 <= i < ms.len() ==> location_fits_version(#[trigger] ms[i], version),
    ensures
        parse_location_run(ser_location_run(ms) + rest, ms.len(), version) == Some(
            (ms, ser_location_run(ms).len() as int),
        ),
    decreases ms.len(),
{
    if ms.len() > 0 {
        let init = ms.drop_last();
        let last = ms.last();
        let head = ser_location_run(init);
        let tail = ser_location(last);
        assert forall|i: int| 0 <= i < init.len() implies location_encodable(#[trigger] init[i]) by {
            assert(init[i] == ms[i]);
        }
        assert forall|i: int| 0 <= i < init.len() implies location_fits_version(#[trigger] init[i], version) by {
            assert(init[i] == ms[i]);
        }
        lemma_location_run_roundtrip(init, version, tail + rest);
        assert(ser_location_run(ms) + rest =~= head + (tail + rest));
        assert((head + (tail + rest)).skip(head.len() as int) =~= tail + rest);
        lemma_location_roundtrip(last, version, rest);
        assert(init.push(last) =~= ms);
    }
}

proof fn lemma_locations_roundtrip(ms: Seq<LocationModel>, version: i32, rest: Seq<u8>)
    requires
        ms.len() <= i32::MAX,
        forall|i: int| 0 <= i < ms.len() ==> location_encodable(#[trigger] ms[i]),
        forall|i: int| 0 <= i < ms.len() ==> location_fits_version(#[trigger] ms[i], version),
    ensures
        parse_locations(ser_locations(ms) + rest, version) == Some((ms, ser_locations(ms).len() as int)),
{
    let c = <i32 as Wire>::wire_ser(ms.len() as i32);
    let r = ser_location_run(ms);
    <i32 as Wire>::lemma_roundtrip(ms.len() as i32, r + rest);
    assert(ser_locations(ms) + rest =~= c + (r + rest));
    assert((c + (r + rest)).skip(c.len() as int) =~= r + rest);
    lemma_location_run_roundtrip(ms, version, rest);
}

proof fn lemma_zone_head_roundtrip(m: ZoneModel, version: i32, rest: Seq<u8>)
    requires
        zone_encodable(m),
        zone_fits_version(m, version),
    ensures
        parse_zone_head(ser_zone_head(m) + rest, version) == Some(
            ((m.generated_zones, m.pgw_version, m.location_version), ser_zone_head(m).len() as int),
        ),
{
    reveal(ser_zone_head);
    reveal(parse_zone_head);
    let z = <Counted<Vec2i> as Wire>::wire_ser(m.generated_zones);
    let pg = ser_opt::<i32>(m.pgw_version);
    let lv = ser_opt::<i32>(m.location_version);
    let b = ser_zone_head(m) + rest;
    assert(b =~= z + (pg + lv + rest));
    <Counted<Vec2i> as Wire>::lemma_roundtrip(m.generated_zones, pg + lv + rest);
    assert(b.skip(z.len() as int) =~= pg + (lv + rest));
    lemma_opt_roundtrip_gated::<i32>(m.pgw_version, version >= WORLD_ZONE_PGW_VERSION, lv + rest);
    assert(b.skip((z.len() + pg.len()) as int) =~= lv + rest);
    lemma_opt_roundtrip_gated::<i32>(m.location_version, version >= WORLD_ZONE_LOCATION_VERSION, rest);
}

#[verifier::spinoff_prover]
#[verifier::rlimit(40)]
proof fn lemma_zone_tail_roundtrip(m: ZoneModel, version: i32, rest: Seq<u8>)
    requires
        zone_encodable(m),
        zone_fits_version(m, version),
    ensures
        parse_zone_tail(ser_zone_tail(m) + rest, version) == Some(
            ((m.global_keys, m.locations_generated, m.locations), ser_zone_tail(m).len() as int),
        ),
{
    reveal(ser_zone_tail);
    reveal(parse_zone_tail);
    let g = ser_opt::<StringList>(m.global_keys);
    let lg = ser_opt::<Bool>(m.locations_generated);
    let ls = ser_zone_locations(m.locations);
    let t = ser_zone_tail(m) + rest;
    assert(t =~= g + (lg + ls + rest));
    lemma_opt_roundtrip_gated::<StringList>(m.global_keys, version >= WORLD_ZONE_GLOBAL_KEYS, lg + ls + rest);
    assert(t.skip(g.len() as int) =~= lg + (ls + rest));
    lemma_opt_roundtrip_gated::<Bool>(m.locations_generated, version >= WORLD_ZONE_LOCATIONS_GENERATED, ls + rest);
    assert(t.skip((g.len() + lg.len()) as int) =~= ls + rest);
    match m.locations {
        Some(l) => {
            lemma_locations_roundtrip(l, version, rest);
        },
        None => {
            assert(ls + rest =~= rest);
        },
    }
}

proof fn lemma_zone_roundtrip(m: ZoneModel, version: i32, rest: Seq<u8>)
    requires
        zone_encodable(m),
        zone_fits_version(m, version),
    ensures
        parse_zone_system(ser_zone_system(m) + rest, version) == Some((m, ser_zone_system(m).len() as int)),
{
    let h = ser_zone_head(m);
    let t = ser_zone_tail(m);
    lemma_zone_head_roundtrip(m, version, t + rest);
    assert(ser_zone_system(m) + rest =~= h + (t + rest));
    assert((h + (t + rest)).skip(h.len() as int) =~= t + rest);
    lemma_zone_tail_roundtrip(m, version, rest);
}

/// Random-event state written here reads back as itself.
pub proof fn lemma_rand_events_roundtrip(m: RandEventsModel, version: i32, rest: Seq<u8>)
    requires
        opt_encodable::<RandEvent>(m.current),
        (m.current is Some) == (version >= WORLD_RAND_EVENT_DETAILS),
    ensures
        parse_rand_events(ser_rand_events(m) + rest, version) == Some((m, ser_rand_events(m).len() as int)),
{
    let t = <u32 as Wire>::wire_ser(m.event_timer);
    let c = ser_opt::<RandEvent>(m.current);
    let b = ser_rand_events(m) + rest;
    assert(b =~= t + (c + rest));
    <u32 as Wire>::lemma_roundtrip(m.event_timer, c + rest);
    assert(b.skip(t.len() as int) =~= c + rest);
    lemma_opt_roundtrip_gated::<RandEvent>(m.current, version >= WORLD_RAND_EVENT_DETAILS, rest);
}

proof fn lemma_db_tail_roundtrip(m: DbModel)
    requires
        db_tail_encodable(m),
        db_fits_version(m),
    ensures
        parse_db_tail(ser_db_tail(m), m.version) == Some(
            ((m.zone_system, m.rand_events, m.persistent_events), ser_db_tail(m).len() as int),
        ),
{
    reveal(ser_db_tail);
    reveal(parse_db_tail);
    let v = m.version;
    let zs = match m.zone_system {
        Some(z) => ser_zone_system(z),
        None => seq![],
    };
    let es = match m.rand_events {
        Some(e) => ser_rand_events(e),
        None => seq![],
    };
    let ps = ser_opt::<ByteArray>(m.persistent_events);
    let b = ser_db_tail(m);
    assert(b =~= zs + (es + ps));
    match m.zone_system {
        Some(z) => {
            lemma_zone_roundtrip(z, v, es + ps);
        },
        None => {},
    }
    assert(b.skip(zs.len() as int) =~= es + ps);
    match m.rand_events {
        Some(e) => {
            lemma_rand_events_roundtrip(e, v, ps);
        },
        None => {},
    }
    assert(b.skip((zs.len() + es.len()) as int) =~= ps);
    match m.persistent_events {
        Some(x) => {
            <ByteArray as Wire>::lemma_roundtrip(x, seq![]);
            assert(ps + seq![] =~= ps);
            assert(ps.len() >= 4);
        },
        None => {},
    }
}

/// Dropping a prefix of known length leaves what followed it.
pub(crate) proof fn lemma_skip_prefix(a: Seq<u8>, r: Seq<u8>)
    ensures
        (a + r).skip(a.len() as int) == r,
{
    assert((a + r).skip(a.len() as int) =~= r);
}

/// Dropping `x` bytes and then `y` bytes drops `x + y` bytes.
pub(crate) proof fn lemma_skip_twice(b: Seq<u8>, x: int, y: int)
    requires
        0 <= x,
        0 <= y,
        x + y <= b.len(),
    ensures
        b.skip(x + y) == b.skip(x).skip(y),
{
    assert(b.skip(x + y) =~= b.skip(x).skip(y));
}

#[verifier::spinoff_prover]
#[verifier::rlimit(40)]
proof fn lemma_db_head_roundtrip(m: DbModel, rest: Seq<u8>)
    requires
        m.zdos.len() <= i32::MAX,
        run_writable(m.zdos, m.version),
        db_fits_version(m),
    ensures
        parse_db_head(ser_db_head(m) + rest) == Some(
            ((m.version, m.net_time, m.session_id, m.next_uid, m.zdos), ser_db_head(m).len() as int),
        ),
{
    let v = <i32 as Wire>::wire_ser(m.version);
    let t = ser_opt::<u64>(m.net_time);
    let s = <i64 as Wire>::wire_ser(m.session_id);
    let u = <u32 as Wire>::wire_ser(m.next_uid);
    let c = <i32 as Wire>::wire_ser(m.zdos.len() as i32);
    let z = ser_zdo_run(m.zdos, m.version);
    let r5 = z + rest;
    let r4 = c + r5;
    let r3 = u + r4;
    let r2 = s + r3;
    let r1 = t + r2;
    let b = ser_db_head(m) + rest;
    assert(b =~= v + r1) by {
        reveal(ser_db_head);
    }
    assert(ser_db_head(m).len() == v.len() + t.len() + s.len() + u.len() + c.len() + z.len()) by {
        reveal(ser_db_head);
    }
    let k1 = v.len() as int;
    let k2 = t.len() as int;
    let k3 = s.len() as int;
    let k4 = u.len() as int;
    let k5 = c.len() as int;
    <i32 as Wire>::lemma_roundtrip(m.version, r1);
    lemma_skip_prefix(v, r1);
    lemma_opt_roundtrip_gated::<u64>(m.net_time, m.version >= WORLD_NET_TIME, r2);
    lemma_skip_prefix(t, r2);
    lemma_skip_twice(b, k1, k2);
    <i64 as Wire>::lemma_roundtrip(m.session_id, r3);
    lemma_skip_prefix(s, r3);
    lemma_skip_twice(b, k1 + k2, k3);
    <u32 as Wire>::lemma_roundtrip(m.next_uid, r4);
    lemma_skip_prefix(u, r4);
    lemma_skip_twice(b, k1 + k2 + k3, k4);
    <i32 as Wire>::lemma_roundtrip(m.zdos.len() as i32, r5);
    lemma_skip_prefix(c, r5);
    lemma_skip_twice(b, k1 + k2 + k3 + k4, k5);
    lemma_zdo_run_roundtrip(m.zdos, m.version, rest);
    reveal(parse_db_head);
}

/// A `.db` written here reads back as itself, when its parts are the ones
/// its version carries and it can be written.
pub proof fn lemma_world_db_roundtrip(m: DbModel)
    requires
        db_writable(m),
        db_fits_version(m),
    ensures
        parse_world_db(ser_world_db(m)) == Some((m, ser_world_db(m).len() as int)),
{
    let h = ser_db_head(m);
    let t = ser_db_tail(m);
    lemma_db_head_roundtrip(m, t);
    assert((h + t).skip(h.len() as int) =~= t);
    lemma_db_tail_roundtrip(m);
}

} // verus!
