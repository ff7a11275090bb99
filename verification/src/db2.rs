//! `_main.N.db2`: everything from the old `.db` that is not an object, in
//! the chunked layout (`ZNet.SaveWorldThread` / `ZNet.LoadWorld`).

use vstd::prelude::*;
use crate::chunk_files::{whole_file, FileError};
use crate::compress::{gzip_fits, is_gzipped, lemma_gzipped_roundtrip, parse_gzipped, read_gzipped, write_gzipped};
use crate::inventory::opt_encodable;
use crate::primitives::{Bool, ByteArray, CsString, StringList, Vec2s, Vec3};
use crate::versions::WORLD_CHUNKED_SAVE;
use crate::wire::Wire;
use crate::world_db::{lemma_skip_prefix, lemma_skip_twice, parse_rand_events, ser_rand_events, Counted, RandEvent, RandEventData, RandEventsModel};

verus! {

/// A location by prefab hash, as the chunked layout stores it.
pub struct PackedLocation {
    pub prefab_hash: i32,
    pub position: Vec3,
    pub placed: Bool,
}

/// A packed location's fields in file order.
pub type PackedLocationFields = (i32, (Vec3, Bool));

impl Wire for PackedLocation {
    type Model = (i32, (Vec3, bool));

    open spec fn model(&self) -> (i32, (Vec3, bool)) {
        (self.prefab_hash, (self.position, self.placed.0))
    }

    open spec fn wire_encodable(m: (i32, (Vec3, bool))) -> bool {
        true
    }

    open spec fn wire_ser(m: (i32, (Vec3, bool))) -> Seq<u8> {
        <PackedLocationFields as Wire>::wire_ser(m)
    }

    open spec fn wire_parse(b: Seq<u8>) -> Option<((i32, (Vec3, bool)), int)> {
        <PackedLocationFields as Wire>::wire_parse(b)
    }

    proof fn lemma_roundtrip(m: (i32, (Vec3, bool)), rest: Seq<u8>) {
        <PackedLocationFields as Wire>::lemma_roundtrip(m, rest);
    }

    fn read(buf: &[u8], pos: usize) -> (r: Option<(PackedLocation, usize)>) {
        match <PackedLocationFields as Wire>::read(buf, pos) {
            Some(((prefab_hash, (position, placed)), p)) => Some((PackedLocation { prefab_hash, position, placed }, p)),
            None => None,
        }
    }

    fn write(&self, out: &mut Vec<u8>) {
        self.prefab_hash.write(out);
        self.position.write(out);
        self.placed.write(out);
        assert(out@ =~= old(out)@ + Self::wire_ser(self.model()));
    }
}

/// `ZoneSystem.Save` / `ZoneSystem.Load`, the content of the gzip section:
/// like the old section minus the always-zero pgw version, with zones as
/// shorts and locations by prefab hash.
pub struct ZoneSystemPacked {
    pub generated_zones: Counted<Vec2s>,
    pub location_version: i32,
    pub global_keys: StringList,
    pub locations_generated: Bool,
    pub locations: Counted<PackedLocation>,
}

/// The packed zone system's fields in file order.
pub type ZoneFields = (Counted<Vec2s>, (i32, (StringList, (Bool, Counted<PackedLocation>))));

impl Wire for ZoneSystemPacked {
    type Model = <ZoneFields as Wire>::Model;

    open spec fn model(&self) -> Self::Model {
        (
            self.generated_zones.model(),
            (self.location_version, (self.global_keys.model(), (self.locations_generated.0, self.locations.model()))),
        )
    }

    open spec fn wire_encodable(m: Self::Model) -> bool {
        <ZoneFields as Wire>::wire_encodable(m)
    }

    open spec fn wire_ser(m: Self::Model) -> Seq<u8> {
        <ZoneFields as Wire>::wire_ser(m)
    }

    open spec fn wire_parse(b: Seq<u8>) -> Option<(Self::Model, int)> {
        <ZoneFields as Wire>::wire_parse(b)
    }

    proof fn lemma_roundtrip(m: Self::Model, rest: Seq<u8>) {
        <ZoneFields as Wire>::lemma_roundtrip(m, rest);
    }

    fn read(buf: &[u8], pos: usize) -> (r: Option<(ZoneSystemPacked, usize)>) {
        match <ZoneFields as Wire>::read(buf, pos) {
            Some(((generated_zones, (location_version, (global_keys, (locations_generated, locations)))), p)) => Some(
                (ZoneSystemPacked { generated_zones, location_version, global_keys, locations_generated, locations }, p),
            ),
            None => None,
        }
    }

    fn write(&self, out: &mut Vec<u8>) {
        let ghost o = out@;
        self.generated_zones.write(out);
        self.location_version.write(out);
        self.global_keys.write(out);
        self.locations_generated.write(out);
        self.locations.write(out);
        assert(out@ =~= o + Self::wire_ser(self.model()));
    }
}

pub struct Db2 {
    pub version: i32,
    /// The `f64` net time as its bit pattern.
    pub net_time: u64,
    pub zone_system: ZoneSystemPacked,
    pub rand_events: RandEventData,
    /// `PersistentEventSystem` state, kept opaque.
    pub persistent_events: ByteArray,
}

/// A `.db2` as plain values.
pub struct Db2Model {
    pub version: i32,
    pub net_time: u64,
    pub zone_system: <ZoneSystemPacked as Wire>::Model,
    pub rand_events: RandEventsModel,
    pub persistent_events: Seq<u8>,
}

impl Db2 {
    pub open spec fn model(&self) -> Db2Model {
        Db2Model {
            version: self.version,
            net_time: self.net_time,
            zone_system: self.zone_system.model(),
            rand_events: self.rand_events.model(),
            persistent_events: self.persistent_events.model(),
        }
    }
}

/// A `.db2` off the front of `b`.
pub open spec fn parse_db2(b: Seq<u8>) -> Option<(Db2Model, int)> {
    match <i32 as Wire>::wire_parse(b) {
        None => None,
        Some((v, k1)) => match <u64 as Wire>::wire_parse(b.skip(k1)) {
            None => None,
            Some((t, k2)) => match parse_gzipped::<ZoneSystemPacked>(b.skip(k1 + k2)) {
                None => None,
                Some((z, k3)) => match parse_rand_events(b.skip(k1 + k2 + k3), v) {
                    None => None,
                    Some((e, k4)) => match <ByteArray as Wire>::wire_parse(b.skip(k1 + k2 + k3 + k4)) {
                        None => None,
                        Some((pe, k5)) => Some(
                            (
                                Db2Model { version: v, net_time: t, zone_system: z, rand_events: e, persistent_events: pe },
                                k1 + k2 + k3 + k4 + k5,
                            ),
                        ),
                    },
                },
            },
        },
    }
}

/// What reading all of `b` as a `.db2` gives: a version before the chunked
/// layout is refused, else the content when it fills `b`.
pub open spec fn db2_parsed(b: Seq<u8>, r: Result<Db2Model, FileError>) -> bool {
    match <i32 as Wire>::wire_parse(b) {
        Some((v, _)) => if v < WORLD_CHUNKED_SAVE {
            r == Err::<Db2Model, FileError>(FileError::VersionTooOld { version: v, oldest: WORLD_CHUNKED_SAVE })
        } else {
            whole_file(parse_db2(b), b.len(), r)
        },
        None => whole_file(parse_db2(b), b.len(), r),
    }
}

/// Whether `b` is a `.db2` of `m` as written here: the fields in file order,
/// the zone system as a gzip section decoding to its bytes.
pub open spec fn is_db2_bytes(b: Seq<u8>, m: Db2Model) -> bool {
    exists|s: Seq<u8>|
        #[trigger] is_gzipped::<ZoneSystemPacked>(s, m.zone_system) && b == <i32 as Wire>::wire_ser(m.version)
            + <u64 as Wire>::wire_ser(m.net_time) + s + ser_rand_events(m.rand_events) + <ByteArray as Wire>::wire_ser(
            m.persistent_events,
        )
}

/// Whether a `.db2` can be written: its strings, lists and blob fit their
/// length prefixes.
pub open spec fn db2_encodable(m: Db2Model) -> bool {
    &&& <ZoneSystemPacked as Wire>::wire_encodable(m.zone_system)
    &&& opt_encodable::<RandEvent>(m.rand_events.current)
    &&& <ByteArray as Wire>::wire_encodable(m.persistent_events)
}

impl Db2 {
    /// Read a whole `.db2` file.
    #[verifier::rlimit(40)]
    pub fn parse(bytes: &[u8]) -> (r: Result<Db2, FileError>)
        ensures
            db2_parsed(
                bytes@,
                match r {
                    Ok(d) => Ok(d.model()),
                    Err(e) => Err(e),
                },
            ),
    {
        let b = bytes;
        assert(b@.skip(0) =~= b@);
        let (v, p1) = match <i32 as Wire>::read(b, 0) {
            Some(x) => x,
            None => {
                return Err(FileError::Malformed);
            },
        };
        if v < WORLD_CHUNKED_SAVE {
            return Err(FileError::VersionTooOld { version: v, oldest: WORLD_CHUNKED_SAVE });
        }
        let (t, p2) = match <u64 as Wire>::read(b, p1) {
            Some(x) => x,
            None => {
                return Err(FileError::Malformed);
            },
        };
        assert(b@.skip(p2 as int) =~= b@.skip(p1 as int).skip(p2 - p1));
        let (z, p3) = match read_gzipped::<ZoneSystemPacked>(b, p2) {
            Some(x) => x,
            None => {
                return Err(FileError::Malformed);
            },
        };
        assert(b@.skip(p3 as int) =~= b@.skip(p1 as int).skip(p3 - p1));
        let (e, p4) = match RandEventData::read(b, p3, v) {
            Some(x) => x,
            None => {
                return Err(FileError::Malformed);
            },
        };
        assert(b@.skip(p4 as int) =~= b@.skip(p1 as int).skip(p4 - p1));
        let (pe, p5) = match <ByteArray as Wire>::read(b, p4) {
            Some(x) => x,
            None => {
                return Err(FileError::Malformed);
            },
        };
        if p5 != b.len() {
            return Err(FileError::TrailingBytes { count: b.len() - p5 });
        }
        Ok(Db2 { version: v, net_time: t, zone_system: z, rand_events: e, persistent_events: pe })
    }

    /// The bytes of the `.db2` file. Refused when a string, list or blob is
    /// too long for its length prefix, or the compressor fails.
    pub fn to_bytes(&self) -> (r: Result<Vec<u8>, FileError>)
        ensures
            match r {
                Ok(b) => db2_encodable(self.model()) && is_db2_bytes(b@, self.model()),
                Err(FileError::ValueTooLarge) => !db2_encodable(self.model()),
                Err(FileError::Compression) => db2_encodable(self.model()) && !gzip_fits(
                    <ZoneSystemPacked as Wire>::wire_ser(self.model().zone_system),
                ),
                Err(_) => false,
            },
    {
        let ghost m = self.model();
        if !zone_packed_fits(&self.zone_system) {
            return Err(FileError::ValueTooLarge);
        }
        let event_ok = match &self.rand_events.current {
            Some(c) => crate::inventory::string_fits(&c.name),
            None => true,
        };
        if !event_ok || self.persistent_events.data.len() > 0x7FFF_FFFF {
            return Err(FileError::ValueTooLarge);
        }
        let mut out: Vec<u8> = Vec::new();
        self.version.write(&mut out);
        self.net_time.write(&mut out);
        let ghost head = out@;
        match write_gzipped(&self.zone_system, &mut out) {
            Some(()) => {},
            None => {
                return Err(FileError::Compression);
            },
        }
        let ghost s = choose|s: Seq<u8>| #[trigger] is_gzipped::<ZoneSystemPacked>(s, m.zone_system) && out@ == head + s;
        self.rand_events.write(&mut out);
        self.persistent_events.write(&mut out);
        proof {
            assert(out@ =~= <i32 as Wire>::wire_ser(m.version) + <u64 as Wire>::wire_ser(m.net_time) + s
                + ser_rand_events(m.rand_events) + <ByteArray as Wire>::wire_ser(m.persistent_events));
            assert(is_gzipped::<ZoneSystemPacked>(s, m.zone_system));
        }
        Ok(out)
    }
}

fn zone_packed_fits(z: &ZoneSystemPacked) -> (r: bool)
    ensures
        r == <ZoneSystemPacked as Wire>::wire_encodable(z.model()),
{
    if z.generated_zones.items.len() > 0x7FFF_FFFF || z.locations.items.len() > 0x7FFF_FFFF {
        return false;
    }
    let n = z.global_keys.items.len();
    if n > 0x7FFF_FFFF {
        return false;
    }
    let mut i: usize = 0;
    while i < n
        invariant
            i <= n,
            n == z.global_keys.items@.len(),
            forall|j: int| 0 <= j < i ==> #[trigger] <CsString as Wire>::wire_encodable(z.global_keys.model()[j]),
        decreases n - i,
    {
        assert(z.global_keys.model()[i as int] == z.global_keys.items@[i as int].model());
        if !crate::inventory::string_fits(&z.global_keys.items[i]) {
            return false;
        }
        i = i + 1;
    }
    true
}

/// A `.db2` written here reads back as itself.
#[verifier::spinoff_prover]
#[verifier::rlimit(30)]
pub proof fn lemma_db2_roundtrip(b: Seq<u8>, m: Db2Model)
    requires
        is_db2_bytes(b, m),
        db2_encodable(m),
        (m.rand_events.current is Some) == (m.version >= crate::versions::WORLD_RAND_EVENT_DETAILS),
    ensures
        parse_db2(b) == Some((m, b.len() as int)),
{
    let s = choose|s: Seq<u8>|
        #[trigger] is_gzipped::<ZoneSystemPacked>(s, m.zone_system) && b == <i32 as Wire>::wire_ser(m.version)
            + <u64 as Wire>::wire_ser(m.net_time) + s + ser_rand_events(m.rand_events) + <ByteArray as Wire>::wire_ser(
            m.persistent_events,
        );
    let v = <i32 as Wire>::wire_ser(m.version);
    let t = <u64 as Wire>::wire_ser(m.net_time);
    let e = ser_rand_events(m.rand_events);
    let p = <ByteArray as Wire>::wire_ser(m.persistent_events);
    let r3 = e + p;
    let r2 = s + r3;
    let r1 = t + r2;
    assert(b =~= v + r1);
    let k1 = v.len() as int;
    let k2 = t.len() as int;
    let k3 = s.len() as int;
    let k4 = e.len() as int;
    <i32 as Wire>::lemma_roundtrip(m.version, r1);
    lemma_skip_prefix(v, r1);
    <u64 as Wire>::lemma_roundtrip(m.net_time, r2);
    lemma_skip_prefix(t, r2);
    lemma_skip_twice(b, k1, k2);
    lemma_gzipped_roundtrip::<ZoneSystemPacked>(s, m.zone_system, r3);
    lemma_skip_prefix(s, r3);
    lemma_skip_twice(b, k1 + k2, k3);
    crate::world_db::lemma_rand_events_roundtrip(m.rand_events, m.version, p);
    lemma_skip_prefix(e, p);
    lemma_skip_twice(b, k1 + k2 + k3, k4);
    <ByteArray as Wire>::lemma_roundtrip(m.persistent_events, seq![]);
    assert(p + seq![] =~= p);
}

} // verus!
