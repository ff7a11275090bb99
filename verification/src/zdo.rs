//! A single ZDO (network object) in the world version 31+ inline format
//! (`ZDO.Load` / `ZDO.Save`).
//!
//! Layout: `u16` flags, then up to version 39 the sector, then the position,
//! prefab hash, optional rotation, optional connection, then one property
//! table per flagged value type. Each table is a `NumItems` count followed by
//! `(i32 key hash, value)` pairs. From version 40 the sector is gone, a
//! position may be two shorts, and the rotation is packed into half-degree
//! steps.
//!
//! The record is held here in its encoded forms: a position is either three
//! floats or the two-short form, and a rotation either three floats or one of
//! the two packed forms. Choosing between forms for a given position or angle
//! is floating-point work and happens outside this library.

use crate::primitives::{
    lemma_num_items_roundtrip, num_items_limit, num_items_parse, num_items_ser, read_num_items,
    write_num_items, ByteArray, CsString, Quat, Vec2s, Vec3,
};
use crate::seqcodec::{
    all_encodable, lemma_seq_roundtrip, models, parse_pair, parse_seq, read_pair, read_seq,
    ser_pair, ser_seq, write_seq,
};
use crate::versions::{WORLD_ZDO_COMPACT, WORLD_ZDO_WIDE_COUNTS};
use crate::wire::{Wire, WriteError};
use vstd::prelude::*;

verus! {

pub const FLAG_CONNECTION: u16 = 0x0001;
pub const FLAG_FLOATS: u16 = 0x0002;
pub const FLAG_VEC3S: u16 = 0x0004;
pub const FLAG_QUATS: u16 = 0x0008;
pub const FLAG_INTS: u16 = 0x0010;
pub const FLAG_LONGS: u16 = 0x0020;
pub const FLAG_STRINGS: u16 = 0x0040;
pub const FLAG_BYTE_ARRAYS: u16 = 0x0080;
pub const FLAG_PERSISTENT: u16 = 0x0100;
pub const FLAG_DISTANT: u16 = 0x0200;
/// The object type sits in two bits from here.
pub const FLAG_TYPE_UNIT: u16 = 0x0400;
pub const FLAG_ROTATION: u16 = 0x1000;
/// The position is stored as two shorts (`Utils.SmallPosition`).
pub const FLAG_SMALL_POSITION: u16 = 0x2000;

/// Whether bit `unit` (a power of two) is set in `f`.
pub open spec fn has_flag(f: u16, unit: u16) -> bool {
    (f / unit) % 2 == 1
}

// ---------------------------------------------------------------- connections

/// `ZDOExtraData.ConnectionType` plus the `Target` bit (0x10), and the hash
/// that pairs the two sides within one save.
#[derive(Clone, Copy, PartialEq, Eq, Debug, Default)]
pub struct Connection {
    pub kind: u8,
    pub hash: i32,
}

/// Set on the object a connection points at rather than the one that made it.
pub const CONNECTION_TARGET: u8 = 0x10;

impl Connection {
    pub open spec fn spec_base_kind(self) -> u8 {
        if self.kind % 32 >= 16 {
            (self.kind - 16) as u8
        } else {
            self.kind
        }
    }

    pub open spec fn spec_is_target(self) -> bool {
        self.kind % 32 >= 16
    }

    /// The connection's type name, when it is one this library knows.
    pub open spec fn spec_kind_name(self) -> Option<Seq<char>> {
        let k = self.spec_base_kind();
        if k == 1 {
            Some("Portal"@)
        } else if k == 2 {
            Some("SyncTransform"@)
        } else if k == 3 {
            Some("Spawned"@)
        } else {
            None
        }
    }

    /// How the connection is shown in reports: `Portal`, `Portal|Target`, or
    /// `#<kind>` for an unknown type.
    pub open spec fn spec_label(self) -> Seq<char> {
        let base = match self.spec_kind_name() {
            Some(n) => n,
            None => seq!['#'] + crate::text::decimal(self.spec_base_kind() as nat),
        };
        if self.spec_is_target() {
            base + "|Target"@
        } else {
            base
        }
    }

    /// The connection type with the `Target` bit masked off.
    pub fn base_kind(self) -> (r: u8)
        ensures
            r == self.spec_base_kind(),
    {
        if self.kind % 32 >= 16 {
            self.kind - 16
        } else {
            self.kind
        }
    }

    pub fn is_target(self) -> (r: bool)
        ensures
            r == self.spec_is_target(),
    {
        self.kind % 32 >= 16
    }

    /// `ZDOHelper.ToStringFast`, or `None` for a type this library does not know.
    pub fn kind_name(self) -> (r: Option<&'static str>)
        ensures
            r matches Some(s) ==> self.spec_kind_name() == Some(s@),
            r is None ==> self.spec_kind_name() is None,
    {
        proof {
            reveal_strlit("Portal");
            reveal_strlit("SyncTransform");
            reveal_strlit("Spawned");
        }
        let k = self.base_kind();
        if k == 1 {
            Some("Portal")
        } else if k == 2 {
            Some("SyncTransform")
        } else if k == 3 {
            Some("Spawned")
        } else {
            None
        }
    }

    /// How the connection is shown in reports.
    pub fn label(self) -> (r: String)
        ensures
            r@ == self.spec_label(),
    {
        proof {
            reveal_strlit("#");
            reveal_strlit("|Target");
        }
        let mut s = match self.kind_name() {
            Some(n) => String::from_str(n),
            None => {
                let mut s = String::from_str("#");
                crate::text::push_decimal(&mut s, self.base_kind() as u64);
                s
            },
        };
        if self.is_target() {
            s.append("|Target");
        }
        s
    }
}

impl Wire for Connection {
    type Model = Connection;

    open spec fn model(&self) -> Connection {
        *self
    }

    open spec fn wire_encodable(m: Connection) -> bool {
        true
    }

    open spec fn wire_ser(m: Connection) -> Seq<u8> {
        ser_pair::<u8, i32>(m.kind, m.hash)
    }

    open spec fn wire_parse(b: Seq<u8>) -> Option<(Connection, int)> {
        match parse_pair::<u8, i32>(b) {
            Some(((kind, hash), n)) => Some((Connection { kind, hash }, n)),
            None => None,
        }
    }

    proof fn lemma_roundtrip(m: Connection, rest: Seq<u8>) {
        crate::seqcodec::lemma_pair_roundtrip::<u8, i32>(m.kind, m.hash, rest);
    }

    fn read(buf: &[u8], pos: usize) -> (r: Option<(Connection, usize)>) {
        match read_pair::<u8, i32>(buf, pos) {
            Some((kind, hash, p)) => Some((Connection { kind, hash }, p)),
            None => None,
        }
    }

    fn write(&self, out: &mut Vec<u8>) {
        self.kind.write(out);
        self.hash.write(out);
        assert(out@ =~= old(out)@ + Self::wire_ser(self.model()));
    }
}

// ---------------------------------------------------------------- property tables

/// The index of the first entry with `key`, if any.
pub open spec fn first_with_key<T>(s: Seq<(i32, T)>, key: i32) -> Option<int> {
    if exists|i: int| 0 <= i < s.len() && s[i].0 == key {
        Some(choose|i: int| 0 <= i < s.len() && s[i].0 == key && forall|j: int| 0 <= j < i ==> s[j].0 != key)
    } else {
        None
    }
}

/// Property table for one value type: `(key hash, value)` pairs in file order.
pub struct PropTable<T> {
    pub entries: Vec<(i32, T)>,
}

impl<T> PropTable<T> {
    pub open spec fn keys(&self) -> Seq<i32> {
        Seq::new(self.entries@.len(), |i: int| self.entries@[i].0)
    }

    pub fn new() -> (t: Self)
        ensures
            t.entries@.len() == 0,
    {
        PropTable { entries: Vec::new() }
    }

    pub fn is_empty(&self) -> (r: bool)
        ensures
            r == (self.entries@.len() == 0),
    {
        self.entries.len() == 0
    }

    pub fn len(&self) -> (r: usize)
        ensures
            r == self.entries@.len(),
    {
        self.entries.len()
    }

    /// The value of the first entry with `key`.
    pub fn get(&self, key: i32) -> (r: Option<&T>)
        ensures
            r is Some <==> self.keys().contains(key),
            r matches Some(v) ==> exists|i: int|
                0 <= i < self.entries@.len() && self.entries@[i].0 == key && *v == self.entries@[i].1
                    && forall|j: int| 0 <= j < i ==> self.entries@[j].0 != key,
    {
        let mut i: usize = 0;
        while i < self.entries.len()
            invariant
                i <= self.entries@.len(),
                forall|j: int| 0 <= j < i ==> self.entries@[j].0 != key,
            decreases self.entries@.len() - i,
        {
            if self.entries[i].0 == key {
                assert(self.keys()[i as int] == key);
                return Some(&self.entries[i].1);
            }
            i = i + 1;
        }
        assert forall|j: int| 0 <= j < self.keys().len() implies self.keys()[j] != key by {
            assert(self.entries@[j].0 != key);
        }
        None
    }

    /// Whether some entry has `key`.
    pub fn contains(&self, key: i32) -> (r: bool)
        ensures
            r == self.keys().contains(key),
    {
        self.get(key).is_some()
    }
}

/// A property table off the front of `b`: nothing when its flag is clear,
/// else a count and that many entries.
pub open spec fn parse_table<T: Wire>(b: Seq<u8>, present: bool, wide: bool) -> Option<
    (Seq<(i32, T::Model)>, int),
> {
    if !present {
        Some((seq![], 0))
    } else {
        match num_items_parse(b, wide) {
            Some((c, k)) => match parse_seq::<(i32, T)>(b.skip(k), c) {
                Some((es, j)) => Some((es, k + j)),
                None => None,
            },
            None => None,
        }
    }
}

/// A property table's bytes: nothing when empty, else a count and the entries.
pub open spec fn ser_table<T: Wire>(es: Seq<(i32, T::Model)>, wide: bool) -> Seq<u8> {
    if es.len() == 0 {
        seq![]
    } else {
        num_items_ser(es.len(), wide) + ser_seq::<(i32, T)>(es)
    }
}

/// Whether a table can be written: its count fits and every value encodes.
pub open spec fn table_encodable<T: Wire>(es: Seq<(i32, T::Model)>, wide: bool) -> bool {
    es.len() < num_items_limit(wide) && all_encodable::<(i32, T)>(es)
}

pub proof fn lemma_table_roundtrip<T: Wire>(es: Seq<(i32, T::Model)>, wide: bool, rest: Seq<u8>)
    requires
        table_encodable::<T>(es, wide),
    ensures
        parse_table::<T>(ser_table::<T>(es, wide) + rest, es.len() > 0, wide) == Some(
            (es, ser_table::<T>(es, wide).len() as int),
        ),
{
    if es.len() > 0 {
        let head = num_items_ser(es.len(), wide);
        let b = ser_table::<T>(es, wide) + rest;
        assert(b =~= head + (ser_seq::<(i32, T)>(es) + rest));
        lemma_num_items_roundtrip(es.len(), wide, ser_seq::<(i32, T)>(es) + rest);
        assert(b.skip(head.len() as int) =~= ser_seq::<(i32, T)>(es) + rest);
        lemma_seq_roundtrip::<(i32, T)>(es, rest);
    } else {
        assert(es =~= seq![]);
        assert(ser_table::<T>(es, wide) + rest =~= rest);
    }
}

impl<T: Wire> PropTable<T> {
    pub open spec fn model(&self) -> Seq<(i32, T::Model)> {
        models::<(i32, T)>(self.entries@)
    }

    /// Read a table whose flag says `present`.
    pub fn read(buf: &[u8], pos: usize, present: bool, wide: bool) -> (r: Option<(Self, usize)>)
        requires
            pos <= buf@.len(),
        ensures
            match r {
                Some((t, p)) => pos <= p <= buf@.len() && parse_table::<T>(
                    buf@.skip(pos as int),
                    present,
                    wide,
                ) == Some((t.model(), p - pos)),
                None => parse_table::<T>(buf@.skip(pos as int), present, wide) is None,
            },
    {
        if !present {
            let t = PropTable { entries: Vec::new() };
            assert(t.model() =~= seq![]);
            return Some((t, pos));
        }
        match read_num_items(buf, pos, wide) {
            Some((c, p)) => {
                assert(buf@.skip(pos as int).skip(p - pos) =~= buf@.skip(p as int));
                match read_seq::<(i32, T)>(buf, p, c) {
                    Some((entries, q)) => Some((PropTable { entries }, q)),
                    None => None,
                }
            },
            None => None,
        }
    }

    /// Write the table: nothing when it is empty, else its count and entries.
    /// Refused when the count does not fit the encoding.
    pub fn write(&self, out: &mut Vec<u8>, wide: bool) -> (r: Result<(), crate::primitives::CountTooLarge>)
        requires
            all_encodable::<(i32, T)>(self.model()),
        ensures
            r is Ok <==> self.entries@.len() < num_items_limit(wide),
            r is Ok ==> final(out)@ == old(out)@ + ser_table::<T>(self.model(), wide),
    {
        if self.entries.len() == 0 {
            assert(out@ =~= old(out)@ + ser_table::<T>(self.model(), wide));
            return Ok(());
        }
        match write_num_items(out, self.entries.len(), wide) {
            Ok(()) => {
                write_seq(&self.entries, out);
                assert(out@ =~= old(out)@ + ser_table::<T>(self.model(), wide));
                Ok(())
            },
            Err(e) => Err(e),
        }
    }
}

// ---------------------------------------------------------------- the record

/// Where an object is, in the form the file stores it.
#[derive(Clone, Copy, PartialEq, Eq, Debug)]
pub enum Position {
    /// Three floats (as bits).
    Exact(Vec3),
    /// `(x, 0, z)` in whole metres, as two shorts (`Utils.SmallPosition`).
    Short(Vec2s),
}

/// An object's rotation as Euler angles, in the form the file stores it.
#[derive(Clone, Copy, PartialEq, Eq, Debug)]
pub enum Rotation {
    /// Three floats (as bits): every version up to 39.
    Euler(Vec3),
    /// Yaw only, in half-degree steps (below 0x8000): one short.
    Yaw(u16),
    /// Three 10-bit half-degree fields, `x | y << 10 | z << 20`: two shorts,
    /// high half first.
    Packed(u32),
}

/// The plain content of a ZDO.
pub struct ZdoModel {
    pub persistent: bool,
    pub distant: bool,
    pub object_type: u8,
    pub sector: Option<Vec2s>,
    pub position: Position,
    pub prefab: i32,
    pub rotation: Option<Rotation>,
    pub connection: Option<Connection>,
    pub floats: Seq<(i32, u32)>,
    pub vec3s: Seq<(i32, Vec3)>,
    pub quats: Seq<(i32, Quat)>,
    pub ints: Seq<(i32, i32)>,
    pub longs: Seq<(i32, i64)>,
    pub strings: Seq<(i32, Seq<char>)>,
    pub byte_arrays: Seq<(i32, Seq<u8>)>,
}

/// One network object.
pub struct Zdo {
    pub persistent: bool,
    pub distant: bool,
    /// `ZDO.ObjectType`: 0 Default, 1 Prioritized, 2 Solid, 3 Terrain.
    pub object_type: u8,
    /// The zone the object was in when saved. Only the single-file layout
    /// stores it; the chunked layout derives it from the position.
    pub sector: Option<Vec2s>,
    pub position: Position,
    pub prefab: i32,
    /// Absent when the rotation is zero.
    pub rotation: Option<Rotation>,
    pub connection: Option<Connection>,
    /// Float values as their bit patterns.
    pub floats: PropTable<u32>,
    pub vec3s: PropTable<Vec3>,
    pub quats: PropTable<Quat>,
    pub ints: PropTable<i32>,
    pub longs: PropTable<i64>,
    pub strings: PropTable<CsString>,
    pub byte_arrays: PropTable<ByteArray>,
}

impl Default for Zdo {
    /// An object with nothing set: at the origin, prefab 0, no rotation,
    /// connection or property.
    fn default() -> (z: Zdo)
        ensures
            z.model() == (ZdoModel {
                persistent: false,
                distant: false,
                object_type: 0,
                sector: None,
                position: Position::Exact(Vec3 { x: 0, y: 0, z: 0 }),
                prefab: 0,
                rotation: None,
                connection: None,
                floats: seq![],
                vec3s: seq![],
                quats: seq![],
                ints: seq![],
                longs: seq![],
                strings: seq![],
                byte_arrays: seq![],
            }),
    {
        let z = Zdo {
            persistent: false,
            distant: false,
            object_type: 0,
            sector: None,
            position: Position::Exact(Vec3 { x: 0, y: 0, z: 0 }),
            prefab: 0,
            rotation: None,
            connection: None,
            floats: PropTable::new(),
            vec3s: PropTable::new(),
            quats: PropTable::new(),
            ints: PropTable::new(),
            longs: PropTable::new(),
            strings: PropTable::new(),
            byte_arrays: PropTable::new(),
        };
        assert(z.model().floats =~= seq![]);
        assert(z.model().vec3s =~= seq![]);
        assert(z.model().quats =~= seq![]);
        assert(z.model().ints =~= seq![]);
        assert(z.model().longs =~= seq![]);
        assert(z.model().strings =~= seq![]);
        assert(z.model().byte_arrays =~= seq![]);
        z
    }
}

/// Whether a world of `version` writes property counts in the wide form.
pub open spec fn wide_counts(version: i32) -> bool {
    version >= WORLD_ZDO_WIDE_COUNTS
}

/// Whether a world of `version` uses the compact record.
pub open spec fn compact_record(version: i32) -> bool {
    version >= WORLD_ZDO_COMPACT
}

/// 1 for true, 0 for false.
pub open spec fn bit01(b: bool) -> u32 {
    if b {
        1
    } else {
        0
    }
}

/// The flags word built from its fields: one bit per present table and
/// per set switch, and the object type in two bits at `FLAG_TYPE_UNIT`.
#[verifier::opaque]
pub open spec fn flag_word(
    c0: u32,
    c1: u32,
    c2: u32,
    c3: u32,
    c4: u32,
    c5: u32,
    c6: u32,
    c7: u32,
    c8: u32,
    c9: u32,
    t: u32,
    c12: u32,
    c13: u32,
) -> u16 {
    (c0 + c1 * 2 + c2 * 4 + c3 * 8 + c4 * 16 + c5 * 32 + c6 * 64 + c7 * 128 + c8 * 256 + c9 * 512
        + t * 1024 + c12 * 4096 + c13 * 8192) as u16
}

/// The flags word `ZDO.Save` writes for `m`.
pub open spec fn zdo_flags(m: ZdoModel) -> u16 {
    flag_word(
        bit01(m.connection is Some),
        bit01(m.floats.len() > 0),
        bit01(m.vec3s.len() > 0),
        bit01(m.quats.len() > 0),
        bit01(m.ints.len() > 0),
        bit01(m.longs.len() > 0),
        bit01(m.strings.len() > 0),
        bit01(m.byte_arrays.len() > 0),
        bit01(m.persistent),
        bit01(m.distant),
        (m.object_type % 4) as u32,
        bit01(m.rotation is Some),
        bit01(m.position is Short),
    )
}

/// Whether `m` can be written as a record of `version`: the sector and the
/// three-float forms belong to the old record, the packed rotations to the
/// compact one, and every table must fit its count.
pub open spec fn zdo_encodable(m: ZdoModel, version: i32) -> bool {
    let w = wide_counts(version);
    &&& !compact_record(version) ==> m.sector is Some && m.position is Exact && (m.rotation is None
        || m.rotation->0 is Euler)
    &&& compact_record(version) ==> match m.rotation {
        Some(Rotation::Euler(_)) => false,
        Some(Rotation::Yaw(k)) => k < 0x8000,
        Some(Rotation::Packed(p)) => p < 0x8000_0000,
        None => true,
    }
    &&& table_encodable::<u32>(m.floats, w)
    &&& table_encodable::<Vec3>(m.vec3s, w)
    &&& table_encodable::<Quat>(m.quats, w)
    &&& table_encodable::<i32>(m.ints, w)
    &&& table_encodable::<i64>(m.longs, w)
    &&& table_encodable::<CsString>(m.strings, w)
    &&& table_encodable::<ByteArray>(m.byte_arrays, w)
}

pub open spec fn ser_position(p: Position) -> Seq<u8> {
    match p {
        Position::Exact(v) => <Vec3 as Wire>::wire_ser(v),
        Position::Short(s) => <Vec2s as Wire>::wire_ser(s),
    }
}

pub open spec fn ser_rotation(r: Option<Rotation>) -> Seq<u8> {
    match r {
        None => seq![],
        Some(Rotation::Euler(v)) => <Vec3 as Wire>::wire_ser(v),
        Some(Rotation::Yaw(k)) => <u16 as Wire>::wire_ser((k + 0x8000) as u16),
        Some(Rotation::Packed(p)) => <u16 as Wire>::wire_ser((p / 0x10000) as u16) + <u16 as Wire>::wire_ser(
            (p % 0x10000) as u16,
        ),
    }
}

proof fn lemma_flag_bits(
    f: u32,
    c0: u32,
    c1: u32,
    c2: u32,
    c3: u32,
    c4: u32,
    c5: u32,
    c6: u32,
    c7: u32,
    c8: u32,
    c9: u32,
    t: u32,
    c12: u32,
    c13: u32,
) by (bit_vector)
    requires
        c0 <= 1,
        c1 <= 1,
        c2 <= 1,
        c3 <= 1,
        c4 <= 1,
        c5 <= 1,
        c6 <= 1,
        c7 <= 1,
        c8 <= 1,
        c9 <= 1,
        t <= 3,
        c12 <= 1,
        c13 <= 1,
        f == c0 + c1 * 2 + c2 * 4 + c3 * 8 + c4 * 16 + c5 * 32 + c6 * 64 + c7 * 128 + c8 * 256 + c9
            * 512 + t * 1024 + c12 * 4096 + c13 * 8192,
    ensures
        f < 0x4000,
        (f / 1) % 2 == c0,
        (f / 2) % 2 == c1,
        (f / 4) % 2 == c2,
        (f / 8) % 2 == c3,
        (f / 16) % 2 == c4,
        (f / 32) % 2 == c5,
        (f / 64) % 2 == c6,
        (f / 128) % 2 == c7,
        (f / 256) % 2 == c8,
        (f / 512) % 2 == c9,
        (f / 1024) % 4 == t,
        (f / 4096) % 2 == c12,
        (f / 8192) % 2 == c13,
{
}

#[verifier::rlimit(50)]
proof fn lemma_zdo_flags(m: ZdoModel)
    ensures
        has_flag(zdo_flags(m), FLAG_CONNECTION) == (m.connection is Some),
        has_flag(zdo_flags(m), FLAG_FLOATS) == (m.floats.len() > 0),
        has_flag(zdo_flags(m), FLAG_VEC3S) == (m.vec3s.len() > 0),
        has_flag(zdo_flags(m), FLAG_QUATS) == (m.quats.len() > 0),
        has_flag(zdo_flags(m), FLAG_INTS) == (m.ints.len() > 0),
        has_flag(zdo_flags(m), FLAG_LONGS) == (m.longs.len() > 0),
        has_flag(zdo_flags(m), FLAG_STRINGS) == (m.strings.len() > 0),
        has_flag(zdo_flags(m), FLAG_BYTE_ARRAYS) == (m.byte_arrays.len() > 0),
        has_flag(zdo_flags(m), FLAG_PERSISTENT) == m.persistent,
        has_flag(zdo_flags(m), FLAG_DISTANT) == m.distant,
        (zdo_flags(m) / FLAG_TYPE_UNIT) % 4 == m.object_type % 4,
        has_flag(zdo_flags(m), FLAG_ROTATION) == (m.rotation is Some),
        has_flag(zdo_flags(m), FLAG_SMALL_POSITION) == (m.position is Short),
{
    let c0 = bit01(m.connection is Some);
    let c1 = bit01(m.floats.len() > 0);
    let c2 = bit01(m.vec3s.len() > 0);
    let c3 = bit01(m.quats.len() > 0);
    let c4 = bit01(m.ints.len() > 0);
    let c5 = bit01(m.longs.len() > 0);
    let c6 = bit01(m.strings.len() > 0);
    let c7 = bit01(m.byte_arrays.len() > 0);
    let c8 = bit01(m.persistent);
    let c9 = bit01(m.distant);
    let t = (m.object_type % 4) as u32;
    let c12 = bit01(m.rotation is Some);
    let c13 = bit01(m.position is Short);
    let sum: int = c0 + c1 * 2 + c2 * 4 + c3 * 8 + c4 * 16 + c5 * 32 + c6 * 64 + c7 * 128 + c8 * 256
        + c9 * 512 + t * 1024 + c12 * 4096 + c13 * 8192;
    assert(0 <= sum < 0x4000);
    reveal(flag_word);
    let f = zdo_flags(m) as u32;
    assert(f as int == sum);
    lemma_flag_bits(f, c0, c1, c2, c3, c4, c5, c6, c7, c8, c9, t, c12, c13);
}

// The record is specified as a chain: each part's bytes are followed by the
// rest of the chain, and each part's parser hands what follows to the next.

pub open spec fn ser_conn_part(m: ZdoModel) -> Seq<u8> {
    match m.connection {
        Some(c) => <Connection as Wire>::wire_ser(c),
        None => seq![],
    }
}

pub open spec fn ser_rot_part(m: ZdoModel) -> Seq<u8> {
    ser_rotation(m.rotation) + ser_conn_part(m)
}

pub open spec fn ser_prefab_part(m: ZdoModel) -> Seq<u8> {
    <i32 as Wire>::wire_ser(m.prefab) + ser_rot_part(m)
}

pub open spec fn ser_pos_part(m: ZdoModel) -> Seq<u8> {
    ser_position(m.position) + ser_prefab_part(m)
}

pub open spec fn ser_sector_part(m: ZdoModel, version: i32) -> Seq<u8> {
    if compact_record(version) {
        ser_pos_part(m)
    } else {
        <Vec2s as Wire>::wire_ser(m.sector->0) + ser_pos_part(m)
    }
}

/// Everything of the record before the property tables.
pub open spec fn ser_zdo_head(m: ZdoModel, version: i32) -> Seq<u8> {
    <u16 as Wire>::wire_ser(zdo_flags(m)) + ser_sector_part(m, version)
}

#[verifier::opaque]
pub open spec fn ser_t7(m: ZdoModel, w: bool) -> Seq<u8> {
    ser_table::<ByteArray>(m.byte_arrays, w)
}

#[verifier::opaque]
pub open spec fn ser_t6(m: ZdoModel, w: bool) -> Seq<u8> {
    ser_table::<CsString>(m.strings, w) + ser_t7(m, w)
}

#[verifier::opaque]
pub open spec fn ser_t5(m: ZdoModel, w: bool) -> Seq<u8> {
    ser_table::<i64>(m.longs, w) + ser_t6(m, w)
}

#[verifier::opaque]
pub open spec fn ser_t4(m: ZdoModel, w: bool) -> Seq<u8> {
    ser_table::<i32>(m.ints, w) + ser_t5(m, w)
}

#[verifier::opaque]
pub open spec fn ser_t3(m: ZdoModel, w: bool) -> Seq<u8> {
    ser_table::<Quat>(m.quats, w) + ser_t4(m, w)
}

#[verifier::opaque]
pub open spec fn ser_t2(m: ZdoModel, w: bool) -> Seq<u8> {
    ser_table::<Vec3>(m.vec3s, w) + ser_t3(m, w)
}

/// The record's property tables, in flag order.
pub open spec fn ser_zdo_tables(m: ZdoModel, version: i32) -> Seq<u8> {
    ser_table::<u32>(m.floats, wide_counts(version)) + ser_t2(m, wide_counts(version))
}

/// The bytes `ZDO.Save` writes for `m` in a world of `version`.
pub open spec fn ser_zdo(m: ZdoModel, version: i32) -> Seq<u8> {
    ser_zdo_head(m, version) + ser_zdo_tables(m, version)
}

/// What the record's head holds.
pub struct ZdoHead {
    pub flags: u16,
    pub sector: Option<Vec2s>,
    pub position: Position,
    pub prefab: i32,
    pub rotation: Option<Rotation>,
    pub connection: Option<Connection>,
}

pub open spec fn parse_position(b: Seq<u8>, small: bool) -> Option<(Position, int)> {
    if small {
        match <Vec2s as Wire>::wire_parse(b) {
            Some((s, n)) => Some((Position::Short(s), n)),
            None => None,
        }
    } else {
        match <Vec3 as Wire>::wire_parse(b) {
            Some((v, n)) => Some((Position::Exact(v), n)),
            None => None,
        }
    }
}

pub open spec fn parse_rotation(b: Seq<u8>, present: bool, version: i32) -> Option<(Option<Rotation>, int)> {
    if !present {
        Some((None, 0))
    } else if !compact_record(version) {
        match <Vec3 as Wire>::wire_parse(b) {
            Some((v, n)) => Some((Some(Rotation::Euler(v)), n)),
            None => None,
        }
    } else {
        match <u16 as Wire>::wire_parse(b) {
            Some((first, n)) => if first >= 0x8000 {
                Some((Some(Rotation::Yaw((first - 0x8000) as u16)), n))
            } else {
                match <u16 as Wire>::wire_parse(b.skip(n)) {
                    Some((second, k)) => Some(
                        (Some(Rotation::Packed((first * 0x10000 + second) as u32)), n + k),
                    ),
                    None => None,
                }
            },
            None => None,
        }
    }
}

pub open spec fn parse_conn_part(b: Seq<u8>, f: u16) -> Option<(Option<Connection>, int)> {
    if !has_flag(f, FLAG_CONNECTION) {
        Some((None, 0))
    } else {
        match <Connection as Wire>::wire_parse(b) {
            Some((c, n)) => Some((Some(c), n)),
            None => None,
        }
    }
}

pub open spec fn parse_rot_part(b: Seq<u8>, f: u16, version: i32) -> Option<
    ((Option<Rotation>, Option<Connection>), int),
> {
    match parse_rotation(b, has_flag(f, FLAG_ROTATION), version) {
        None => None,
        Some((r, n)) => match parse_conn_part(b.skip(n), f) {
            None => None,
            Some((c, k)) => Some(((r, c), n + k)),
        },
    }
}

pub open spec fn parse_prefab_part(b: Seq<u8>, f: u16, version: i32) -> Option<
    ((i32, (Option<Rotation>, Option<Connection>)), int),
> {
    match <i32 as Wire>::wire_parse(b) {
        None => None,
        Some((p, n)) => match parse_rot_part(b.skip(n), f, version) {
            None => None,
            Some((rc, k)) => Some(((p, rc), n + k)),
        },
    }
}

pub open spec fn parse_pos_part(b: Seq<u8>, f: u16, version: i32) -> Option<
    ((Position, (i32, (Option<Rotation>, Option<Connection>))), int),
> {
    match parse_position(b, has_flag(f, FLAG_SMALL_POSITION)) {
        None => None,
        Some((pos, n)) => match parse_prefab_part(b.skip(n), f, version) {
            None => None,
            Some((prc, k)) => Some(((pos, prc), n + k)),
        },
    }
}

pub open spec fn parse_sector_part(b: Seq<u8>, f: u16, version: i32) -> Option<
    ((Option<Vec2s>, (Position, (i32, (Option<Rotation>, Option<Connection>)))), int),
> {
    if compact_record(version) {
        match parse_pos_part(b, f, version) {
            None => None,
            Some((x, k)) => Some(((None, x), k)),
        }
    } else {
        match <Vec2s as Wire>::wire_parse(b) {
            None => None,
            Some((sec, n)) => match parse_pos_part(b.skip(n), f, version) {
                None => None,
                Some((x, k)) => Some(((Some(sec), x), n + k)),
            },
        }
    }
}

/// The record's head off the front of `b`.
#[verifier::opaque]
pub open spec fn parse_zdo_head(b: Seq<u8>, version: i32) -> Option<(ZdoHead, int)> {
    match <u16 as Wire>::wire_parse(b) {
        None => None,
        Some((f, n)) => match parse_sector_part(b.skip(n), f, version) {
            None => None,
            Some(((sector, (position, (prefab, (rotation, connection)))), k)) => Some(
                (ZdoHead { flags: f, sector, position, prefab, rotation, connection }, n + k),
            ),
        },
    }
}

pub type Tables = (
    Seq<(i32, u32)>,
    (
        Seq<(i32, Vec3)>,
        (
            Seq<(i32, Quat)>,
            (Seq<(i32, i32)>, (Seq<(i32, i64)>, (Seq<(i32, Seq<char>)>, Seq<(i32, Seq<u8>)>))),
        ),
    ),
);

#[verifier::opaque]
pub open spec fn parse_t7(b: Seq<u8>, f: u16, w: bool) -> Option<(Seq<(i32, Seq<u8>)>, int)> {
    parse_table::<ByteArray>(b, has_flag(f, FLAG_BYTE_ARRAYS), w)
}

#[verifier::opaque]
pub open spec fn parse_t6(b: Seq<u8>, f: u16, w: bool) -> Option<
    ((Seq<(i32, Seq<char>)>, Seq<(i32, Seq<u8>)>), int),
> {
    match parse_table::<CsString>(b, has_flag(f, FLAG_STRINGS), w) {
        None => None,
        Some((x, n)) => match parse_t7(b.skip(n), f, w) {
            None => None,
            Some((y, k)) => Some(((x, y), n + k)),
        },
    }
}

#[verifier::opaque]
pub open spec fn parse_t5(b: Seq<u8>, f: u16, w: bool) -> Option<
    ((Seq<(i32, i64)>, (Seq<(i32, Seq<char>)>, Seq<(i32, Seq<u8>)>)), int),
> {
    match parse_table::<i64>(b, has_flag(f, FLAG_LONGS), w) {
        None => None,
        Some((x, n)) => match parse_t6(b.skip(n), f, w) {
            None => None,
            Some((y, k)) => Some(((x, y), n + k)),
        },
    }
}

#[verifier::opaque]
pub open spec fn parse_t4(b: Seq<u8>, f: u16, w: bool) -> Option<
    ((Seq<(i32, i32)>, (Seq<(i32, i64)>, (Seq<(i32, Seq<char>)>, Seq<(i32, Seq<u8>)>))), int),
> {
    match parse_table::<i32>(b, has_flag(f, FLAG_INTS), w) {
        None => None,
        Some((x, n)) => match parse_t5(b.skip(n), f, w) {
            None => None,
            Some((y, k)) => Some(((x, y), n + k)),
        },
    }
}

#[verifier::opaque]
pub open spec fn parse_t3(b: Seq<u8>, f: u16, w: bool) -> Option<
    (
        (
            Seq<(i32, Quat)>,
            (Seq<(i32, i32)>, (Seq<(i32, i64)>, (Seq<(i32, Seq<char>)>, Seq<(i32, Seq<u8>)>))),
        ),
        int,
    ),
> {
    match parse_table::<Quat>(b, has_flag(f, FLAG_QUATS), w) {
        None => None,
        Some((x, n)) => match parse_t4(b.skip(n), f, w) {
            None => None,
            Some((y, k)) => Some(((x, y), n + k)),
        },
    }
}

#[verifier::opaque]
pub open spec fn parse_t2(b: Seq<u8>, f: u16, w: bool) -> Option<
    (
        (
            Seq<(i32, Vec3)>,
            (
                Seq<(i32, Quat)>,
                (Seq<(i32, i32)>, (Seq<(i32, i64)>, (Seq<(i32, Seq<char>)>, Seq<(i32, Seq<u8>)>))),
            ),
        ),
        int,
    ),
> {
    match parse_table::<Vec3>(b, has_flag(f, FLAG_VEC3S), w) {
        None => None,
        Some((x, n)) => match parse_t3(b.skip(n), f, w) {
            None => None,
            Some((y, k)) => Some(((x, y), n + k)),
        },
    }
}

/// The property tables the flags announce, off the front of `b`.
#[verifier::opaque]
pub open spec fn parse_zdo_tables(b: Seq<u8>, f: u16, version: i32) -> Option<(Tables, int)> {
    let w = wide_counts(version);
    match parse_table::<u32>(b, has_flag(f, FLAG_FLOATS), w) {
        None => None,
        Some((x, n)) => match parse_t2(b.skip(n), f, w) {
            None => None,
            Some((y, k)) => Some(((x, y), n + k)),
        },
    }
}

/// The record a head and its tables describe.
pub open spec fn assemble(h: ZdoHead, t: Tables) -> ZdoModel {
    ZdoModel {
        persistent: has_flag(h.flags, FLAG_PERSISTENT),
        distant: has_flag(h.flags, FLAG_DISTANT),
        object_type: ((h.flags / FLAG_TYPE_UNIT) % 4) as u8,
        sector: h.sector,
        position: h.position,
        prefab: h.prefab,
        rotation: h.rotation,
        connection: h.connection,
        floats: t.0,
        vec3s: t.1.0,
        quats: t.1.1.0,
        ints: t.1.1.1.0,
        longs: t.1.1.1.1.0,
        strings: t.1.1.1.1.1.0,
        byte_arrays: t.1.1.1.1.1.1,
    }
}

/// A record of `version` off the front of `b` (`ZDO.Load`).
pub open spec fn parse_zdo(b: Seq<u8>, version: i32) -> Option<(ZdoModel, int)> {
    match parse_zdo_head(b, version) {
        None => None,
        Some((h, n)) => match parse_zdo_tables(b.skip(n), h.flags, version) {
            None => None,
            Some((t, k)) => Some((assemble(h, t), n + k)),
        },
    }
}

proof fn lemma_split(a: Seq<u8>, b: Seq<u8>, rest: Seq<u8>)
    ensures
        (a + b) + rest == a + (b + rest),
        (a + (b + rest)).skip(a.len() as int) == b + rest,
{
    assert((a + b) + rest =~= a + (b + rest));
    assert((a + (b + rest)).skip(a.len() as int) =~= b + rest);
}

proof fn lemma_conn_part(m: ZdoModel, rest: Seq<u8>)
    ensures
        parse_conn_part(ser_conn_part(m) + rest, zdo_flags(m)) == Some(
            (m.connection, ser_conn_part(m).len() as int),
        ),
{
    lemma_zdo_flags(m);
    match m.connection {
        Some(c) => <Connection as Wire>::lemma_roundtrip(c, rest),
        None => {
            assert(ser_conn_part(m) + rest =~= rest);
        },
    }
}

proof fn lemma_rot_part(m: ZdoModel, version: i32, rest: Seq<u8>)
    requires
        zdo_encodable(m, version),
    ensures
        parse_rot_part(ser_rot_part(m) + rest, zdo_flags(m), version) == Some(
            ((m.rotation, m.connection), ser_rot_part(m).len() as int),
        ),
{
    lemma_zdo_flags(m);
    let next = ser_conn_part(m) + rest;
    lemma_split(ser_rotation(m.rotation), ser_conn_part(m), rest);
    match m.rotation {
        None => {
            assert(ser_rotation(m.rotation) =~= seq![]);
        },
        Some(Rotation::Euler(v)) => <Vec3 as Wire>::lemma_roundtrip(v, next),
        Some(Rotation::Yaw(k)) => <u16 as Wire>::lemma_roundtrip((k + 0x8000) as u16, next),
        Some(Rotation::Packed(p)) => {
            let hi = <u16 as Wire>::wire_ser((p / 0x10000) as u16);
            let lo = <u16 as Wire>::wire_ser((p % 0x10000) as u16);
            lemma_split(hi, lo, next);
            <u16 as Wire>::lemma_roundtrip((p / 0x10000) as u16, lo + next);
            <u16 as Wire>::lemma_roundtrip((p % 0x10000) as u16, next);
        },
    }
    lemma_conn_part(m, rest);
}

proof fn lemma_prefab_part(m: ZdoModel, version: i32, rest: Seq<u8>)
    requires
        zdo_encodable(m, version),
    ensures
        parse_prefab_part(ser_prefab_part(m) + rest, zdo_flags(m), version) == Some(
            ((m.prefab, (m.rotation, m.connection)), ser_prefab_part(m).len() as int),
        ),
{
    lemma_split(<i32 as Wire>::wire_ser(m.prefab), ser_rot_part(m), rest);
    <i32 as Wire>::lemma_roundtrip(m.prefab, ser_rot_part(m) + rest);
    lemma_rot_part(m, version, rest);
}

proof fn lemma_pos_part(m: ZdoModel, version: i32, rest: Seq<u8>)
    requires
        zdo_encodable(m, version),
    ensures
        parse_pos_part(ser_pos_part(m) + rest, zdo_flags(m), version) == Some(
            ((m.position, (m.prefab, (m.rotation, m.connection))), ser_pos_part(m).len() as int),
        ),
{
    lemma_zdo_flags(m);
    lemma_split(ser_position(m.position), ser_prefab_part(m), rest);
    match m.position {
        Position::Exact(v) => <Vec3 as Wire>::lemma_roundtrip(v, ser_prefab_part(m) + rest),
        Position::Short(v) => <Vec2s as Wire>::lemma_roundtrip(v, ser_prefab_part(m) + rest),
    }
    lemma_prefab_part(m, version, rest);
}

/// Writing the head then reading it gives back what the head holds.
proof fn lemma_zdo_head_roundtrip(m: ZdoModel, version: i32, rest: Seq<u8>)
    requires
        zdo_encodable(m, version),
    ensures
        parse_zdo_head(ser_zdo_head(m, version) + rest, version) == Some(
            (
                ZdoHead {
                    flags: zdo_flags(m),
                    sector: if compact_record(version) {
                        None
                    } else {
                        m.sector
                    },
                    position: m.position,
                    prefab: m.prefab,
                    rotation: m.rotation,
                    connection: m.connection,
                },
                ser_zdo_head(m, version).len() as int,
            ),
        ),
{
    reveal(parse_zdo_head);
    let fl = <u16 as Wire>::wire_ser(zdo_flags(m));
    lemma_split(fl, ser_sector_part(m, version), rest);
    <u16 as Wire>::lemma_roundtrip(zdo_flags(m), ser_sector_part(m, version) + rest);
    if compact_record(version) {
        lemma_pos_part(m, version, rest);
    } else {
        let se = <Vec2s as Wire>::wire_ser(m.sector->0);
        lemma_split(se, ser_pos_part(m), rest);
        <Vec2s as Wire>::lemma_roundtrip(m.sector->0, ser_pos_part(m) + rest);
        lemma_pos_part(m, version, rest);
    }
}

proof fn lemma_t7(m: ZdoModel, w: bool, rest: Seq<u8>)
    requires
        table_encodable::<ByteArray>(m.byte_arrays, w),
    ensures
        parse_t7(ser_t7(m, w) + rest, zdo_flags(m), w) == Some(
            (m.byte_arrays, ser_t7(m, w).len() as int),
        ),
{
    reveal(ser_t7);
    reveal(parse_t7);
    lemma_zdo_flags(m);
    lemma_table_roundtrip::<ByteArray>(m.byte_arrays, w, rest);
}

proof fn lemma_t6(m: ZdoModel, w: bool, rest: Seq<u8>)
    requires
        table_encodable::<CsString>(m.strings, w),
        table_encodable::<ByteArray>(m.byte_arrays, w),
    ensures
        parse_t6(ser_t6(m, w) + rest, zdo_flags(m), w) == Some(
            ((m.strings, m.byte_arrays), ser_t6(m, w).len() as int),
        ),
{
    reveal(ser_t6);
    reveal(parse_t6);
    lemma_zdo_flags(m);
    let t = ser_table::<CsString>(m.strings, w);
    lemma_split(t, ser_t7(m, w), rest);
    lemma_table_roundtrip::<CsString>(m.strings, w, ser_t7(m, w) + rest);
    lemma_t7(m, w, rest);
}

proof fn lemma_t5(m: ZdoModel, w: bool, rest: Seq<u8>)
    requires
        table_encodable::<i64>(m.longs, w),
        table_encodable::<CsString>(m.strings, w),
        table_encodable::<ByteArray>(m.byte_arrays, w),
    ensures
        parse_t5(ser_t5(m, w) + rest, zdo_flags(m), w) == Some(
            ((m.longs, (m.strings, m.byte_arrays)), ser_t5(m, w).len() as int),
        ),
{
    reveal(ser_t5);
    reveal(parse_t5);
    lemma_zdo_flags(m);
    let t = ser_table::<i64>(m.longs, w);
    lemma_split(t, ser_t6(m, w), rest);
    lemma_table_roundtrip::<i64>(m.longs, w, ser_t6(m, w) + rest);
    lemma_t6(m, w, rest);
}

proof fn lemma_t4(m: ZdoModel, w: bool, rest: Seq<u8>)
    requires
        table_encodable::<i32>(m.ints, w),
        table_encodable::<i64>(m.longs, w),
        table_encodable::<CsString>(m.strings, w),
        table_encodable::<ByteArray>(m.byte_arrays, w),
    ensures
        parse_t4(ser_t4(m, w) + rest, zdo_flags(m), w) == Some(
            ((m.ints, (m.longs, (m.strings, m.byte_arrays))), ser_t4(m, w).len() as int),
        ),
{
    reveal(ser_t4);
    reveal(parse_t4);
    lemma_zdo_flags(m);
    let t = ser_table::<i32>(m.ints, w);
    lemma_split(t, ser_t5(m, w), rest);
    lemma_table_roundtrip::<i32>(m.ints, w, ser_t5(m, w) + rest);
    lemma_t5(m, w, rest);
}

proof fn lemma_t3(m: ZdoModel, w: bool, rest: Seq<u8>)
    requires
        table_encodable::<Quat>(m.quats, w),
        table_encodable::<i32>(m.ints, w),
        table_encodable::<i64>(m.longs, w),
        table_encodable::<CsString>(m.strings, w),
        table_encodable::<ByteArray>(m.byte_arrays, w),
    ensures
        parse_t3(ser_t3(m, w) + rest, zdo_flags(m), w) == Some(
            ((m.quats, (m.ints, (m.longs, (m.strings, m.byte_arrays)))), ser_t3(m, w).len() as int),
        ),
{
    reveal(ser_t3);
    reveal(parse_t3);
    lemma_zdo_flags(m);
    let t = ser_table::<Quat>(m.quats, w);
    lemma_split(t, ser_t4(m, w), rest);
    lemma_table_roundtrip::<Quat>(m.quats, w, ser_t4(m, w) + rest);
    lemma_t4(m, w, rest);
}

proof fn lemma_t2(m: ZdoModel, w: bool, rest: Seq<u8>)
    requires
        table_encodable::<Vec3>(m.vec3s, w),
        table_encodable::<Quat>(m.quats, w),
        table_encodable::<i32>(m.ints, w),
        table_encodable::<i64>(m.longs, w),
        table_encodable::<CsString>(m.strings, w),
        table_encodable::<ByteArray>(m.byte_arrays, w),
    ensures
        parse_t2(ser_t2(m, w) + rest, zdo_flags(m), w) == Some(
            (
                (m.vec3s, (m.quats, (m.ints, (m.longs, (m.strings, m.byte_arrays))))),
                ser_t2(m, w).len() as int,
            ),
        ),
{
    reveal(ser_t2);
    reveal(parse_t2);
    lemma_zdo_flags(m);
    let t = ser_table::<Vec3>(m.vec3s, w);
    lemma_split(t, ser_t3(m, w), rest);
    lemma_table_roundtrip::<Vec3>(m.vec3s, w, ser_t3(m, w) + rest);
    lemma_t3(m, w, rest);
}

proof fn lemma_zdo_tables_roundtrip(m: ZdoModel, version: i32, rest: Seq<u8>)
    requires
        zdo_encodable(m, version),
    ensures
        parse_zdo_tables(ser_zdo_tables(m, version) + rest, zdo_flags(m), version) == Some(
            (
                (m.floats, (m.vec3s, (m.quats, (m.ints, (m.longs, (m.strings, m.byte_arrays)))))),
                ser_zdo_tables(m, version).len() as int,
            ),
        ),
{
    reveal(parse_zdo_tables);
    lemma_zdo_flags(m);
    let w = wide_counts(version);
    let t = ser_table::<u32>(m.floats, w);
    lemma_split(t, ser_t2(m, w), rest);
    lemma_table_roundtrip::<u32>(m.floats, w, ser_t2(m, w) + rest);
    lemma_t2(m, w, rest);
}

proof fn lemma_assemble(m: ZdoModel, version: i32)
    requires
        m.object_type < 4,
        compact_record(version) ==> m.sector is None,
    ensures
        assemble(
            ZdoHead {
                flags: zdo_flags(m),
                sector: if compact_record(version) {
                    None
                } else {
                    m.sector
                },
                position: m.position,
                prefab: m.prefab,
                rotation: m.rotation,
                connection: m.connection,
            },
            (m.floats, (m.vec3s, (m.quats, (m.ints, (m.longs, (m.strings, m.byte_arrays)))))),
        ) == m,
{
    lemma_zdo_flags(m);
}

/// Writing a record then reading it at the same version gives it back. The
/// compact record stores no sector, so the law asks for none there.
pub proof fn lemma_zdo_roundtrip(m: ZdoModel, version: i32, rest: Seq<u8>)
    requires
        zdo_encodable(m, version),
        m.object_type < 4,
        compact_record(version) ==> m.sector is None,
    ensures
        parse_zdo(ser_zdo(m, version) + rest, version) == Some((m, ser_zdo(m, version).len() as int)),
{
    let h = ser_zdo_head(m, version);
    let t = ser_zdo_tables(m, version);
    let b = ser_zdo(m, version) + rest;
    lemma_split(h, t, rest);
    assert(b == h + (t + rest));
    lemma_zdo_head_roundtrip(m, version, t + rest);
    assert(b.skip(h.len() as int) == t + rest);
    lemma_zdo_tables_roundtrip(m, version, rest);
    lemma_assemble(m, version);
}

// ---------------------------------------------------------------- reading and writing

fn read_rotation(buf: &[u8], pos: usize, present: bool, version: i32) -> (r: Option<(Option<Rotation>, usize)>)
    requires
        pos <= buf@.len(),
    ensures
        match r {
            Some((x, p)) => pos <= p <= buf@.len() && parse_rotation(buf@.skip(pos as int), present, version)
                == Some((x, p - pos)),
            None => parse_rotation(buf@.skip(pos as int), present, version) is None,
        },
{
    if !present {
        return Some((None, pos));
    }
    if version < WORLD_ZDO_COMPACT {
        match <Vec3 as Wire>::read(buf, pos) {
            Some((v, p)) => Some((Some(Rotation::Euler(v)), p)),
            None => None,
        }
    } else {
        match <u16 as Wire>::read(buf, pos) {
            Some((first, p)) => {
                if first >= 0x8000 {
                    Some((Some(Rotation::Yaw(first - 0x8000)), p))
                } else {
                    assert(buf@.skip(pos as int).skip(p - pos) =~= buf@.skip(p as int));
                    match <u16 as Wire>::read(buf, p) {
                        Some((second, q)) => Some(
                            (Some(Rotation::Packed((first as u32) * 0x10000 + second as u32)), q),
                        ),
                        None => None,
                    }
                }
            },
            None => None,
        }
    }
}

fn read_conn_part(buf: &[u8], pos: usize, f: u16) -> (r: Option<(Option<Connection>, usize)>)
    requires
        pos <= buf@.len(),
    ensures
        match r {
            Some((x, p)) => pos <= p <= buf@.len() && parse_conn_part(buf@.skip(pos as int), f) == Some(
                (x, p - pos),
            ),
            None => parse_conn_part(buf@.skip(pos as int), f) is None,
        },
{
    if (f / FLAG_CONNECTION) % 2 != 1 {
        return Some((None, pos));
    }
    match <Connection as Wire>::read(buf, pos) {
        Some((c, p)) => Some((Some(c), p)),
        None => None,
    }
}

fn read_rot_part(buf: &[u8], pos: usize, f: u16, version: i32) -> (r: Option<
    (Option<Rotation>, Option<Connection>, usize),
>)
    requires
        pos <= buf@.len(),
    ensures
        match r {
            Some((x, y, p)) => pos <= p <= buf@.len() && parse_rot_part(buf@.skip(pos as int), f, version)
                == Some(((x, y), p - pos)),
            None => parse_rot_part(buf@.skip(pos as int), f, version) is None,
        },
{
    match read_rotation(buf, pos, (f / FLAG_ROTATION) % 2 == 1, version) {
        Some((x, p)) => {
            assert(buf@.skip(pos as int).skip(p - pos) =~= buf@.skip(p as int));
            match read_conn_part(buf, p, f) {
                Some((y, q)) => Some((x, y, q)),
                None => None,
            }
        },
        None => None,
    }
}

fn read_prefab_part(buf: &[u8], pos: usize, f: u16, version: i32) -> (r: Option<
    (i32, Option<Rotation>, Option<Connection>, usize),
>)
    requires
        pos <= buf@.len(),
    ensures
        match r {
            Some((a, x, y, p)) => pos <= p <= buf@.len() && parse_prefab_part(
                buf@.skip(pos as int),
                f,
                version,
            ) == Some(((a, (x, y)), p - pos)),
            None => parse_prefab_part(buf@.skip(pos as int), f, version) is None,
        },
{
    match <i32 as Wire>::read(buf, pos) {
        Some((a, p)) => {
            assert(buf@.skip(pos as int).skip(p - pos) =~= buf@.skip(p as int));
            match read_rot_part(buf, p, f, version) {
                Some((x, y, q)) => Some((a, x, y, q)),
                None => None,
            }
        },
        None => None,
    }
}

fn read_pos_part(buf: &[u8], pos: usize, f: u16, version: i32) -> (r: Option<
    (Position, i32, Option<Rotation>, Option<Connection>, usize),
>)
    requires
        pos <= buf@.len(),
    ensures
        match r {
            Some((o, a, x, y, p)) => pos <= p <= buf@.len() && parse_pos_part(
                buf@.skip(pos as int),
                f,
                version,
            ) == Some(((o, (a, (x, y))), p - pos)),
            None => parse_pos_part(buf@.skip(pos as int), f, version) is None,
        },
{
    let small = (f / FLAG_SMALL_POSITION) % 2 == 1;
    let read = if small {
        match <Vec2s as Wire>::read(buf, pos) {
            Some((v, p)) => Some((Position::Short(v), p)),
            None => None,
        }
    } else {
        match <Vec3 as Wire>::read(buf, pos) {
            Some((v, p)) => Some((Position::Exact(v), p)),
            None => None,
        }
    };
    match read {
        Some((o, p)) => {
            assert(buf@.skip(pos as int).skip(p - pos) =~= buf@.skip(p as int));
            match read_prefab_part(buf, p, f, version) {
                Some((a, x, y, q)) => Some((o, a, x, y, q)),
                None => None,
            }
        },
        None => None,
    }
}

fn read_head(buf: &[u8], pos: usize, version: i32) -> (r: Option<
    (u16, Option<Vec2s>, Position, i32, Option<Rotation>, Option<Connection>, usize),
>)
    requires
        pos <= buf@.len(),
    ensures
        match r {
            Some((f, s, o, a, x, y, p)) => pos <= p <= buf@.len() && parse_zdo_head(
                buf@.skip(pos as int),
                version,
            ) == Some(
                (
                    ZdoHead { flags: f, sector: s, position: o, prefab: a, rotation: x, connection: y },
                    p - pos,
                ),
            ),
            None => parse_zdo_head(buf@.skip(pos as int), version) is None,
        },
{
    proof {
        reveal(parse_zdo_head);
    }
    match <u16 as Wire>::read(buf, pos) {
        Some((f, p)) => {
            assert(buf@.skip(pos as int).skip(p - pos) =~= buf@.skip(p as int));
            if version >= WORLD_ZDO_COMPACT {
                match read_pos_part(buf, p, f, version) {
                    Some((o, a, x, y, q)) => Some((f, None, o, a, x, y, q)),
                    None => None,
                }
            } else {
                match <Vec2s as Wire>::read(buf, p) {
                    Some((sec, q)) => {
                        assert(buf@.skip(p as int).skip(q - p) =~= buf@.skip(q as int));
                        match read_pos_part(buf, q, f, version) {
                            Some((o, a, x, y, t)) => Some((f, Some(sec), o, a, x, y, t)),
                            None => None,
                        }
                    },
                    None => None,
                }
            }
        },
        None => None,
    }
}

fn read_t7(buf: &[u8], pos: usize, f: u16, w: bool) -> (r: Option<(PropTable<ByteArray>, usize)>)
    requires
        pos <= buf@.len(),
    ensures
        match r {
            Some((t, p)) => pos <= p <= buf@.len() && parse_t7(buf@.skip(pos as int), f, w) == Some(
                (t.model(), p - pos),
            ),
            None => parse_t7(buf@.skip(pos as int), f, w) is None,
        },
{
    proof {
        reveal(parse_t7);
    }
    PropTable::<ByteArray>::read(buf, pos, (f / FLAG_BYTE_ARRAYS) % 2 == 1, w)
}

fn read_t6(buf: &[u8], pos: usize, f: u16, w: bool) -> (r: Option<
    (PropTable<CsString>, PropTable<ByteArray>, usize),
>)
    requires
        pos <= buf@.len(),
    ensures
        match r {
            Some((a, b, p)) => pos <= p <= buf@.len() && parse_t6(buf@.skip(pos as int), f, w) == Some(
                ((a.model(), b.model()), p - pos),
            ),
            None => parse_t6(buf@.skip(pos as int), f, w) is None,
        },
{
    proof {
        reveal(parse_t6);
    }
    match PropTable::<CsString>::read(buf, pos, (f / FLAG_STRINGS) % 2 == 1, w) {
        Some((a, p)) => {
            assert(buf@.skip(pos as int).skip(p - pos) =~= buf@.skip(p as int));
            match read_t7(buf, p, f, w) {
                Some((b, q)) => Some((a, b, q)),
                None => None,
            }
        },
        None => None,
    }
}

fn read_t5(buf: &[u8], pos: usize, f: u16, w: bool) -> (r: Option<
    (PropTable<i64>, PropTable<CsString>, PropTable<ByteArray>, usize),
>)
    requires
        pos <= buf@.len(),
    ensures
        match r {
            Some((a, b, c, p)) => pos <= p <= buf@.len() && parse_t5(buf@.skip(pos as int), f, w)
                == Some(((a.model(), (b.model(), c.model())), p - pos)),
            None => parse_t5(buf@.skip(pos as int), f, w) is None,
        },
{
    proof {
        reveal(parse_t5);
    }
    match PropTable::<i64>::read(buf, pos, (f / FLAG_LONGS) % 2 == 1, w) {
        Some((a, p)) => {
            assert(buf@.skip(pos as int).skip(p - pos) =~= buf@.skip(p as int));
            match read_t6(buf, p, f, w) {
                Some((b, c, q)) => Some((a, b, c, q)),
                None => None,
            }
        },
        None => None,
    }
}

fn read_t4(buf: &[u8], pos: usize, f: u16, w: bool) -> (r: Option<
    (PropTable<i32>, PropTable<i64>, PropTable<CsString>, PropTable<ByteArray>, usize),
>)
    requires
        pos <= buf@.len(),
    ensures
        match r {
            Some((a, b, c, d, p)) => pos <= p <= buf@.len() && parse_t4(buf@.skip(pos as int), f, w)
                == Some(((a.model(), (b.model(), (c.model(), d.model()))), p - pos)),
            None => parse_t4(buf@.skip(pos as int), f, w) is None,
        },
{
    proof {
        reveal(parse_t4);
    }
    match PropTable::<i32>::read(buf, pos, (f / FLAG_INTS) % 2 == 1, w) {
        Some((a, p)) => {
            assert(buf@.skip(pos as int).skip(p - pos) =~= buf@.skip(p as int));
            match read_t5(buf, p, f, w) {
                Some((b, c, d, q)) => Some((a, b, c, d, q)),
                None => None,
            }
        },
        None => None,
    }
}

fn read_t3(buf: &[u8], pos: usize, f: u16, w: bool) -> (r: Option<
    (PropTable<Quat>, PropTable<i32>, PropTable<i64>, PropTable<CsString>, PropTable<ByteArray>, usize),
>)
    requires
        pos <= buf@.len(),
    ensures
        match r {
            Some((a, b, c, d, e, p)) => pos <= p <= buf@.len() && parse_t3(buf@.skip(pos as int), f, w)
                == Some(((a.model(), (b.model(), (c.model(), (d.model(), e.model())))), p - pos)),
            None => parse_t3(buf@.skip(pos as int), f, w) is None,
        },
{
    proof {
        reveal(parse_t3);
    }
    match PropTable::<Quat>::read(buf, pos, (f / FLAG_QUATS) % 2 == 1, w) {
        Some((a, p)) => {
            assert(buf@.skip(pos as int).skip(p - pos) =~= buf@.skip(p as int));
            match read_t4(buf, p, f, w) {
                Some((b, c, d, e, q)) => Some((a, b, c, d, e, q)),
                None => None,
            }
        },
        None => None,
    }
}

fn read_t2(buf: &[u8], pos: usize, f: u16, w: bool) -> (r: Option<
    (
        PropTable<Vec3>,
        PropTable<Quat>,
        PropTable<i32>,
        PropTable<i64>,
        PropTable<CsString>,
        PropTable<ByteArray>,
        usize,
    ),
>)
    requires
        pos <= buf@.len(),
    ensures
        match r {
            Some((a, b, c, d, e, g, p)) => pos <= p <= buf@.len() && parse_t2(
                buf@.skip(pos as int),
                f,
                w,
            ) == Some(
                ((a.model(), (b.model(), (c.model(), (d.model(), (e.model(), g.model()))))), p - pos),
            ),
            None => parse_t2(buf@.skip(pos as int), f, w) is None,
        },
{
    proof {
        reveal(parse_t2);
    }
    match PropTable::<Vec3>::read(buf, pos, (f / FLAG_VEC3S) % 2 == 1, w) {
        Some((a, p)) => {
            assert(buf@.skip(pos as int).skip(p - pos) =~= buf@.skip(p as int));
            match read_t3(buf, p, f, w) {
                Some((b, c, d, e, g, q)) => Some((a, b, c, d, e, g, q)),
                None => None,
            }
        },
        None => None,
    }
}

fn read_tables(buf: &[u8], pos: usize, f: u16, version: i32) -> (r: Option<
    (
        PropTable<u32>,
        PropTable<Vec3>,
        PropTable<Quat>,
        PropTable<i32>,
        PropTable<i64>,
        PropTable<CsString>,
        PropTable<ByteArray>,
        usize,
    ),
>)
    requires
        pos <= buf@.len(),
    ensures
        match r {
            Some((a, b, c, d, e, g, h, p)) => pos <= p <= buf@.len() && parse_zdo_tables(
                buf@.skip(pos as int),
                f,
                version,
            ) == Some(
                (
                    (
                        a.model(),
                        (b.model(), (c.model(), (d.model(), (e.model(), (g.model(), h.model()))))),
                    ),
                    p - pos,
                ),
            ),
            None => parse_zdo_tables(buf@.skip(pos as int), f, version) is None,
        },
{
    proof {
        reveal(parse_zdo_tables);
    }
    let w = version >= WORLD_ZDO_WIDE_COUNTS;
    match PropTable::<u32>::read(buf, pos, (f / FLAG_FLOATS) % 2 == 1, w) {
        Some((a, p)) => {
            assert(buf@.skip(pos as int).skip(p - pos) =~= buf@.skip(p as int));
            match read_t2(buf, p, f, w) {
                Some((b, c, d, e, g, h, q)) => Some((a, b, c, d, e, g, h, q)),
                None => None,
            }
        },
        None => None,
    }
}

impl Zdo {
    pub open spec fn model(&self) -> ZdoModel {
        ZdoModel {
            persistent: self.persistent,
            distant: self.distant,
            object_type: self.object_type,
            sector: self.sector,
            position: self.position,
            prefab: self.prefab,
            rotation: self.rotation,
            connection: self.connection,
            floats: self.floats.model(),
            vec3s: self.vec3s.model(),
            quats: self.quats.model(),
            ints: self.ints.model(),
            longs: self.longs.model(),
            strings: self.strings.model(),
            byte_arrays: self.byte_arrays.model(),
        }
    }

    /// Read a record of `version` at `pos` (`ZDO.Load`).
    pub fn read(buf: &[u8], pos: usize, version: i32) -> (r: Option<(Zdo, usize)>)
        requires
            pos <= buf@.len(),
        ensures
            match r {
                Some((z, p)) => pos <= p <= buf@.len() && parse_zdo(buf@.skip(pos as int), version) == Some(
                    (z.model(), p - pos),
                ),
                None => parse_zdo(buf@.skip(pos as int), version) is None,
            },
    {
        match read_head(buf, pos, version) {
            Some((f, sector, position, prefab, rotation, connection, p)) => {
                assert(buf@.skip(pos as int).skip(p - pos) =~= buf@.skip(p as int));
                match read_tables(buf, p, f, version) {
                    Some((floats, vec3s, quats, ints, longs, strings, byte_arrays, t)) => {
                        let z = Zdo {
                            persistent: (f / FLAG_PERSISTENT) % 2 == 1,
                            distant: (f / FLAG_DISTANT) % 2 == 1,
                            object_type: ((f / FLAG_TYPE_UNIT) % 4) as u8,
                            sector,
                            position,
                            prefab,
                            rotation,
                            connection,
                            floats,
                            vec3s,
                            quats,
                            ints,
                            longs,
                            strings,
                            byte_arrays,
                        };
                        Some((z, t))
                    },
                    None => None,
                }
            },
            None => None,
        }
    }
}

/// Whether every property value fits its encoding (strings under 4 GiB, byte
/// arrays under 2 GiB).
pub open spec fn zdo_values_encodable(m: ZdoModel) -> bool {
    &&& all_encodable::<(i32, u32)>(m.floats)
    &&& all_encodable::<(i32, Vec3)>(m.vec3s)
    &&& all_encodable::<(i32, Quat)>(m.quats)
    &&& all_encodable::<(i32, i32)>(m.ints)
    &&& all_encodable::<(i32, i64)>(m.longs)
    &&& all_encodable::<(i32, CsString)>(m.strings)
    &&& all_encodable::<(i32, ByteArray)>(m.byte_arrays)
}

/// The flags word of the given fields.
fn pack_flag_word(
    c0: u32,
    c1: u32,
    c2: u32,
    c3: u32,
    c4: u32,
    c5: u32,
    c6: u32,
    c7: u32,
    c8: u32,
    c9: u32,
    t: u32,
    c12: u32,
    c13: u32,
) -> (f: u16)
    requires
        c0 <= 1 && c1 <= 1 && c2 <= 1 && c3 <= 1 && c4 <= 1 && c5 <= 1 && c6 <= 1 && c7 <= 1,
        c8 <= 1 && c9 <= 1 && t <= 3 && c12 <= 1 && c13 <= 1,
    ensures
        f == flag_word(c0, c1, c2, c3, c4, c5, c6, c7, c8, c9, t, c12, c13),
{
    reveal(flag_word);
    let lo = c0 + c1 * 2 + c2 * 4 + c3 * 8 + c4 * 16 + c5 * 32 + c6 * 64 + c7 * 128;
    let hi = c8 * 256 + c9 * 512 + t * 1024 + c12 * 4096 + c13 * 8192;
    (lo + hi) as u16
}

/// The largest count a world of `version` can write.
fn count_limit(version: i32) -> (n: usize)
    ensures
        n == num_items_limit(wide_counts(version)),
{
    if version >= WORLD_ZDO_WIDE_COUNTS {
        0x8000
    } else {
        0x100
    }
}

impl Zdo {
    /// The flags word of this record.
    #[verifier::spinoff_prover]
    #[verifier::rlimit(30)]
    fn flags(&self) -> (f: u16)
        ensures
            f == zdo_flags(self.model()),
    {
        let c0: u32 = if self.connection.is_some() { 1 } else { 0 };
        let c1: u32 = if self.floats.entries.len() > 0 { 1 } else { 0 };
        let c2: u32 = if self.vec3s.entries.len() > 0 { 1 } else { 0 };
        let c3: u32 = if self.quats.entries.len() > 0 { 1 } else { 0 };
        let c4: u32 = if self.ints.entries.len() > 0 { 1 } else { 0 };
        let c5: u32 = if self.longs.entries.len() > 0 { 1 } else { 0 };
        let c6: u32 = if self.strings.entries.len() > 0 { 1 } else { 0 };
        let c7: u32 = if self.byte_arrays.entries.len() > 0 { 1 } else { 0 };
        let c8: u32 = if self.persistent { 1 } else { 0 };
        let c9: u32 = if self.distant { 1 } else { 0 };
        let t: u32 = (self.object_type % 4) as u32;
        let c12: u32 = if self.rotation.is_some() { 1 } else { 0 };
        let c13: u32 = match self.position {
            Position::Short(_) => 1,
            Position::Exact(_) => 0,
        };
        pack_flag_word(c0, c1, c2, c3, c4, c5, c6, c7, c8, c9, t, c12, c13)
    }

    /// Whether the record fits a world of `version`, and if not, why.
    fn check_for(&self, version: i32) -> (r: Result<(), WriteError>)
        requires
            zdo_values_encodable(self.model()),
        ensures
            r is Ok <==> zdo_encodable(self.model(), version),
    {
        if version < WORLD_ZDO_COMPACT {
            if self.sector.is_none() {
                return Err(WriteError::FormNotInVersion);
            }
            if let Position::Short(_) = self.position {
                return Err(WriteError::FormNotInVersion);
            }
            match self.rotation {
                Some(Rotation::Yaw(_)) | Some(Rotation::Packed(_)) => {
                    return Err(WriteError::FormNotInVersion);
                },
                _ => {},
            }
        } else {
            match self.rotation {
                Some(Rotation::Euler(_)) => {
                    return Err(WriteError::FormNotInVersion);
                },
                Some(Rotation::Yaw(k)) => {
                    if k >= 0x8000 {
                        return Err(WriteError::FormNotInVersion);
                    }
                },
                Some(Rotation::Packed(p)) => {
                    if p >= 0x8000_0000 {
                        return Err(WriteError::FormNotInVersion);
                    }
                },
                None => {},
            }
        }
        let limit = count_limit(version);
        let max = limit - 1;
        if self.floats.entries.len() >= limit {
            return Err(WriteError::CountTooLarge { count: self.floats.entries.len(), max });
        }
        if self.vec3s.entries.len() >= limit {
            return Err(WriteError::CountTooLarge { count: self.vec3s.entries.len(), max });
        }
        if self.quats.entries.len() >= limit {
            return Err(WriteError::CountTooLarge { count: self.quats.entries.len(), max });
        }
        if self.ints.entries.len() >= limit {
            return Err(WriteError::CountTooLarge { count: self.ints.entries.len(), max });
        }
        if self.longs.entries.len() >= limit {
            return Err(WriteError::CountTooLarge { count: self.longs.entries.len(), max });
        }
        if self.strings.entries.len() >= limit {
            return Err(WriteError::CountTooLarge { count: self.strings.entries.len(), max });
        }
        if self.byte_arrays.entries.len() >= limit {
            return Err(WriteError::CountTooLarge { count: self.byte_arrays.entries.len(), max });
        }
        Ok(())
    }

    fn write_rot_part(&self, out: &mut Vec<u8>)
        requires
            self.rotation matches Some(Rotation::Yaw(k)) ==> k < 0x8000,
        ensures
            final(out)@ == old(out)@ + ser_rot_part(self.model()),
    {
        match self.rotation {
            None => {},
            Some(Rotation::Euler(v)) => v.write(out),
            Some(Rotation::Yaw(k)) => (k + 0x8000).write(out),
            Some(Rotation::Packed(p)) => {
                ((p / 0x10000) as u16).write(out);
                ((p % 0x10000) as u16).write(out);
            },
        }
        let ghost o = out@;
        match self.connection {
            Some(c) => c.write(out),
            None => {},
        }
        assert(out@ =~= o + ser_conn_part(self.model()));
        assert(out@ =~= old(out)@ + ser_rot_part(self.model()));
    }

    fn write_pos_part(&self, out: &mut Vec<u8>)
        requires
            self.rotation matches Some(Rotation::Yaw(k)) ==> k < 0x8000,
        ensures
            final(out)@ == old(out)@ + ser_pos_part(self.model()),
    {
        match self.position {
            Position::Exact(v) => v.write(out),
            Position::Short(v) => v.write(out),
        }
        let ghost o1 = out@;
        self.prefab.write(out);
        let ghost o2 = out@;
        self.write_rot_part(out);
        assert(out@ =~= o1 + ser_prefab_part(self.model()));
        assert(out@ =~= old(out)@ + ser_pos_part(self.model()));
    }

    fn write_head(&self, out: &mut Vec<u8>, version: i32)
        requires
            zdo_encodable(self.model(), version),
        ensures
            final(out)@ == old(out)@ + ser_zdo_head(self.model(), version),
    {
        let ghost m = self.model();
        self.flags().write(out);
        let ghost o1 = out@;
        if version < WORLD_ZDO_COMPACT {
            match self.sector {
                Some(sec) => sec.write(out),
                None => {},
            }
        }
        let ghost o2 = out@;
        self.write_pos_part(out);
        assert(out@ =~= o1 + ser_sector_part(m, version));
        assert(out@ =~= old(out)@ + ser_zdo_head(m, version));
    }

    fn write_t7(&self, out: &mut Vec<u8>, w: bool)
        requires
            table_encodable::<ByteArray>(self.byte_arrays.model(), w),
        ensures
            final(out)@ == old(out)@ + ser_t7(self.model(), w),
    {
        reveal(ser_t7);
        let _ = self.byte_arrays.write(out, w);
    }

    fn write_t6(&self, out: &mut Vec<u8>, w: bool)
        requires
            table_encodable::<CsString>(self.strings.model(), w),
            table_encodable::<ByteArray>(self.byte_arrays.model(), w),
        ensures
            final(out)@ == old(out)@ + ser_t6(self.model(), w),
    {
        reveal(ser_t6);
        let _ = self.strings.write(out, w);
        let ghost o = out@;
        self.write_t7(out, w);
        assert(out@ =~= old(out)@ + ser_t6(self.model(), w));
    }

    fn write_t5(&self, out: &mut Vec<u8>, w: bool)
        requires
            table_encodable::<i64>(self.longs.model(), w),
            table_encodable::<CsString>(self.strings.model(), w),
            table_encodable::<ByteArray>(self.byte_arrays.model(), w),
        ensures
            final(out)@ == old(out)@ + ser_t5(self.model(), w),
    {
        reveal(ser_t5);
        let _ = self.longs.write(out, w);
        self.write_t6(out, w);
        assert(out@ =~= old(out)@ + ser_t5(self.model(), w));
    }

    fn write_t4(&self, out: &mut Vec<u8>, w: bool)
        requires
            table_encodable::<i32>(self.ints.model(), w),
            table_encodable::<i64>(self.longs.model(), w),
            table_encodable::<CsString>(self.strings.model(), w),
            table_encodable::<ByteArray>(self.byte_arrays.model(), w),
        ensures
            final(out)@ == old(out)@ + ser_t4(self.model(), w),
    {
        reveal(ser_t4);
        let _ = self.ints.write(out, w);
        self.write_t5(out, w);
        assert(out@ =~= old(out)@ + ser_t4(self.model(), w));
    }

    fn write_t3(&self, out: &mut Vec<u8>, w: bool)
        requires
            table_encodable::<Quat>(self.quats.model(), w),
            table_encodable::<i32>(self.ints.model(), w),
            table_encodable::<i64>(self.longs.model(), w),
            table_encodable::<CsString>(self.strings.model(), w),
            table_encodable::<ByteArray>(self.byte_arrays.model(), w),
        ensures
            final(out)@ == old(out)@ + ser_t3(self.model(), w),
    {
        reveal(ser_t3);
        let _ = self.quats.write(out, w);
        self.write_t4(out, w);
        assert(out@ =~= old(out)@ + ser_t3(self.model(), w));
    }

    fn write_t2(&self, out: &mut Vec<u8>, w: bool)
        requires
            table_encodable::<Vec3>(self.vec3s.model(), w),
            table_encodable::<Quat>(self.quats.model(), w),
            table_encodable::<i32>(self.ints.model(), w),
            table_encodable::<i64>(self.longs.model(), w),
            table_encodable::<CsString>(self.strings.model(), w),
            table_encodable::<ByteArray>(self.byte_arrays.model(), w),
        ensures
            final(out)@ == old(out)@ + ser_t2(self.model(), w),
    {
        reveal(ser_t2);
        let _ = self.vec3s.write(out, w);
        self.write_t3(out, w);
        assert(out@ =~= old(out)@ + ser_t2(self.model(), w));
    }

    fn write_tables(&self, out: &mut Vec<u8>, version: i32)
        requires
            zdo_encodable(self.model(), version),
        ensures
            final(out)@ == old(out)@ + ser_zdo_tables(self.model(), version),
    {
        let w = version >= WORLD_ZDO_WIDE_COUNTS;
        let _ = self.floats.write(out, w);
        self.write_t2(out, w);
        assert(out@ =~= old(out)@ + ser_zdo_tables(self.model(), version));
    }

    /// Write the record for a world of `version` (`ZDO.Save`). Refused,
    /// writing nothing, when the record holds a form that version has no room
    /// for or a table too long for its count.
    pub fn write(&self, out: &mut Vec<u8>, version: i32) -> (r: Result<(), WriteError>)
        requires
            zdo_values_encodable(self.model()),
        ensures
            r is Ok <==> zdo_encodable(self.model(), version),
            r is Ok ==> final(out)@ == old(out)@ + ser_zdo(self.model(), version),
            r is Err ==> final(out)@ == old(out)@,
    {
        match self.check_for(version) {
            Ok(()) => {},
            Err(e) => {
                return Err(e);
            },
        }
        self.write_head(out, version);
        let ghost o = out@;
        self.write_tables(out, version);
        assert(out@ =~= old(out)@ + ser_zdo(self.model(), version));
        Ok(())
    }
}

// ---------------------------------------------------------------- properties

/// Which property table a key lives in.
#[derive(Clone, Copy, Debug, PartialEq, Eq, Hash, PartialOrd, Ord, Structural)]
pub enum PropKind {
    Float,
    Vec3,
    Quat,
    Int,
    Long,
    String,
    ByteArray,
}

/// The word each kind is reported by.
pub open spec fn kind_label(k: PropKind) -> Seq<char> {
    match k {
        PropKind::Float => "float"@,
        PropKind::Vec3 => "vec3"@,
        PropKind::Quat => "quat"@,
        PropKind::Int => "int"@,
        PropKind::Long => "long"@,
        PropKind::String => "string"@,
        PropKind::ByteArray => "bytes"@,
    }
}

impl PropKind {
    pub fn label(self) -> (r: &'static str)
        ensures
            r@ == kind_label(self),
    {
        match self {
            PropKind::Float => "float",
            PropKind::Vec3 => "vec3",
            PropKind::Quat => "quat",
            PropKind::Int => "int",
            PropKind::Long => "long",
            PropKind::String => "string",
            PropKind::ByteArray => "bytes",
        }
    }
}

/// Borrowed view of one property value (a float as its bit pattern).
#[derive(Clone, Copy, Debug, PartialEq)]
pub enum PropValue<'a> {
    Float(u32),
    Vec3(&'a Vec3),
    Quat(&'a Quat),
    Int(i32),
    Long(i64),
    String(&'a str),
    ByteArray(&'a [u8]),
}

/// A property value as plain data.
pub enum ValueView {
    Float(u32),
    Vec3(Vec3),
    Quat(Quat),
    Int(i32),
    Long(i64),
    Str(Seq<char>),
    Bytes(Seq<u8>),
}

impl<'a> View for PropValue<'a> {
    type V = ValueView;

    open spec fn view(&self) -> ValueView {
        match *self {
            PropValue::Float(f) => ValueView::Float(f),
            PropValue::Vec3(v) => ValueView::Vec3(*v),
            PropValue::Quat(q) => ValueView::Quat(*q),
            PropValue::Int(i) => ValueView::Int(i),
            PropValue::Long(l) => ValueView::Long(l),
            PropValue::String(s) => ValueView::Str(s@),
            PropValue::ByteArray(b) => ValueView::Bytes(b@),
        }
    }
}

/// A type that can be the value of a property table.
pub trait TableValue: Wire {
    /// The table values of this type live in.
    spec fn spec_kind() -> PropKind;

    /// A value's plain data, from its model.
    spec fn value_of(m: Self::Model) -> ValueView;

    fn kind() -> (k: PropKind)
        ensures
            k == Self::spec_kind(),
    ;

    fn value(&self) -> (v: PropValue<'_>)
        ensures
            v@ == Self::value_of(self.model()),
    ;

    fn duplicate(&self) -> (r: Self)
        ensures
            r.model() == self.model(),
    ;
}

impl TableValue for u32 {
    open spec fn spec_kind() -> PropKind {
        PropKind::Float
    }

    open spec fn value_of(m: u32) -> ValueView {
        ValueView::Float(m)
    }

    fn kind() -> PropKind {
        PropKind::Float
    }

    fn value(&self) -> PropValue<'_> {
        PropValue::Float(*self)
    }

    fn duplicate(&self) -> u32 {
        *self
    }
}

impl TableValue for Vec3 {
    open spec fn spec_kind() -> PropKind {
        PropKind::Vec3
    }

    open spec fn value_of(m: Vec3) -> ValueView {
        ValueView::Vec3(m)
    }

    fn kind() -> PropKind {
        PropKind::Vec3
    }

    fn value(&self) -> PropValue<'_> {
        PropValue::Vec3(self)
    }

    fn duplicate(&self) -> Vec3 {
        *self
    }
}

impl TableValue for Quat {
    open spec fn spec_kind() -> PropKind {
        PropKind::Quat
    }

    open spec fn value_of(m: Quat) -> ValueView {
        ValueView::Quat(m)
    }

    fn kind() -> PropKind {
        PropKind::Quat
    }

    fn value(&self) -> PropValue<'_> {
        PropValue::Quat(self)
    }

    fn duplicate(&self) -> Quat {
        *self
    }
}

impl TableValue for i32 {
    open spec fn spec_kind() -> PropKind {
        PropKind::Int
    }

    open spec fn value_of(m: i32) -> ValueView {
        ValueView::Int(m)
    }

    fn kind() -> PropKind {
        PropKind::Int
    }

    fn value(&self) -> PropValue<'_> {
        PropValue::Int(*self)
    }

    fn duplicate(&self) -> i32 {
        *self
    }
}

impl TableValue for i64 {
    open spec fn spec_kind() -> PropKind {
        PropKind::Long
    }

    open spec fn value_of(m: i64) -> ValueView {
        ValueView::Long(m)
    }

    fn kind() -> PropKind {
        PropKind::Long
    }

    fn value(&self) -> PropValue<'_> {
        PropValue::Long(*self)
    }

    fn duplicate(&self) -> i64 {
        *self
    }
}

impl TableValue for CsString {
    open spec fn spec_kind() -> PropKind {
        PropKind::String
    }

    open spec fn value_of(m: Seq<char>) -> ValueView {
        ValueView::Str(m)
    }

    fn kind() -> PropKind {
        PropKind::String
    }

    fn value(&self) -> PropValue<'_> {
        PropValue::String(self.as_str())
    }

    fn duplicate(&self) -> CsString {
        self.clone()
    }
}

impl TableValue for ByteArray {
    open spec fn spec_kind() -> PropKind {
        PropKind::ByteArray
    }

    open spec fn value_of(m: Seq<u8>) -> ValueView {
        ValueView::Bytes(m)
    }

    fn kind() -> PropKind {
        PropKind::ByteArray
    }

    fn value(&self) -> PropValue<'_> {
        PropValue::ByteArray(self.data.as_slice())
    }

    fn duplicate(&self) -> ByteArray {
        self.clone()
    }
}

/// The value of the first entry with `key`.
pub open spec fn first_value<V>(s: Seq<(i32, V)>, key: i32) -> Option<V> {
    match first_with_key(s, key) {
        Some(i) => Some(s[i].1),
        None => None,
    }
}

proof fn lemma_first_with_key_at<V>(s: Seq<(i32, V)>, key: i32, i: int)
    requires
        0 <= i < s.len(),
        s[i].0 == key,
        forall|j: int| 0 <= j < i ==> s[j].0 != key,
    ensures
        first_with_key(s, key) == Some(i),
{
    let k = choose|k: int| 0 <= k < s.len() && s[k].0 == key && forall|j: int| 0 <= j < k ==> s[j].0 != key;
    assert(0 <= k < s.len() && s[k].0 == key && forall|j: int| 0 <= j < k ==> s[j].0 != key);
    if k < i {
        assert(s[k].0 != key);
    }
    if i < k {
        assert(s[i].0 != key);
    }
}

/// The first entry with `key` is at `i` when no earlier entry has it.
pub proof fn lemma_first_with_key_at_pub<V>(s: Seq<(i32, V)>, key: i32, i: int)
    requires
        0 <= i < s.len(),
        s[i].0 == key,
        forall|j: int| 0 <= j < i ==> s[j].0 != key,
    ensures
        first_with_key(s, key) == Some(i),
{
    lemma_first_with_key_at(s, key, i);
}

proof fn lemma_first_with_key_none<V>(s: Seq<(i32, V)>, key: i32)
    requires
        forall|j: int| 0 <= j < s.len() ==> s[j].0 != key,
    ensures
        first_with_key(s, key) is None,
{
}

/// The value of `key` in table `t`, through the table's model.
fn lookup<T: Wire>(t: &PropTable<T>, key: i32) -> (r: Option<&T>)
    ensures
        match r {
            Some(v) => first_value(t.model(), key) == Some(v.model()),
            None => first_value(t.model(), key) is None,
        },
{
    let mut i: usize = 0;
    while i < t.entries.len()
        invariant
            i <= t.entries@.len(),
            forall|j: int| 0 <= j < i ==> t.entries@[j].0 != key,
        decreases t.entries@.len() - i,
    {
        if t.entries[i].0 == key {
            proof {
                assert forall|j: int| 0 <= j < i implies t.model()[j].0 != key by {
                    assert(t.model()[j] == t.entries@[j].model());
                }
                lemma_first_with_key_at(t.model(), key, i as int);
            }
            return Some(&t.entries[i].1);
        }
        i = i + 1;
    }
    proof {
        assert forall|j: int| 0 <= j < t.model().len() implies t.model()[j].0 != key by {
            assert(t.model()[j] == t.entries@[j].model());
        }
    }
    None
}

/// Whether some entry of the model has `key`.
pub open spec fn has_key_in<V>(s: Seq<(i32, V)>, key: i32) -> bool {
    exists|i: int| 0 <= i < s.len() && s[i].0 == key
}

/// How many properties a record holds.
pub open spec fn property_total(m: ZdoModel) -> nat {
    m.floats.len() + m.vec3s.len() + m.quats.len() + m.ints.len() + m.longs.len() + m.strings.len()
        + m.byte_arrays.len()
}

/// Every property of a table as `(kind, key, value)`.
pub open spec fn table_props<T: TableValue>(s: Seq<(i32, T::Model)>) -> Seq<(PropKind, i32, ValueView)> {
    s.map_values(|e: (i32, T::Model)| (T::spec_kind(), e.0, T::value_of(e.1)))
}

/// Every property of a record as `(kind, key, value)`, table by table.
pub open spec fn property_list(m: ZdoModel) -> Seq<(PropKind, i32, ValueView)> {
    table_props::<u32>(m.floats) + table_props::<Vec3>(m.vec3s) + table_props::<Quat>(m.quats)
        + table_props::<i32>(m.ints) + table_props::<i64>(m.longs) + table_props::<CsString>(
        m.strings,
    ) + table_props::<ByteArray>(m.byte_arrays)
}

fn push_props<'a, T: TableValue>(t: &'a PropTable<T>, out: &mut Vec<(PropKind, i32, PropValue<'a>)>)
    ensures
        final(out)@.map_values(|e: (PropKind, i32, PropValue<'a>)| (e.0, e.1, e.2@)) == old(out)@.map_values(
            |e: (PropKind, i32, PropValue<'a>)| (e.0, e.1, e.2@),
        ) + table_props::<T>(t.model()),
{
    let ghost start = old(out)@;
    let mut i: usize = 0;
    while i < t.entries.len()
        invariant
            i <= t.entries@.len(),
            out@.len() == start.len() + i,
            forall|j: int| 0 <= j < start.len() ==> #[trigger] out@[j] == start[j],
            forall|k: int|
                start.len() <= k < out@.len() ==> (#[trigger] out@[k]).0 == T::spec_kind() && out@[k].1
                    == t.entries@[k - start.len()].0 && out@[k].2@ == T::value_of(
                    t.entries@[k - start.len()].1.model(),
                ),
        decreases t.entries@.len() - i,
    {
        let v = t.entries[i].1.value();
        out.push((T::kind(), t.entries[i].0, v));
        i = i + 1;
    }
    assert forall|j: int| 0 <= j < t.entries@.len() implies (#[trigger] t.model()[j]).0 == t.entries@[j].0
        && t.model()[j].1 == t.entries@[j].1.model() by {
        assert(t.model()[j] == t.entries@[j].model());
    }
    assert(out@.map_values(|e: (PropKind, i32, PropValue<'a>)| (e.0, e.1, e.2@)) =~= start.map_values(
        |e: (PropKind, i32, PropValue<'a>)| (e.0, e.1, e.2@),
    ) + table_props::<T>(t.model()));
}

impl Zdo {
    pub fn string(&self, key: i32) -> (r: Option<&str>)
        ensures
            match r {
                Some(s) => first_value(self.strings.model(), key) == Some(s@),
                None => first_value(self.strings.model(), key) is None,
            },
    {
        match lookup(&self.strings, key) {
            Some(s) => Some(s.as_str()),
            None => None,
        }
    }

    pub fn int_value(&self, key: i32) -> (r: Option<i32>)
        ensures
            r == first_value(self.ints.model(), key),
    {
        match lookup(&self.ints, key) {
            Some(v) => Some(*v),
            None => None,
        }
    }

    pub fn long(&self, key: i32) -> (r: Option<i64>)
        ensures
            r == first_value(self.longs.model(), key),
    {
        match lookup(&self.longs, key) {
            Some(v) => Some(*v),
            None => None,
        }
    }

    /// A float property as its bit pattern.
    pub fn float(&self, key: i32) -> (r: Option<u32>)
        ensures
            r == first_value(self.floats.model(), key),
    {
        match lookup(&self.floats, key) {
            Some(v) => Some(*v),
            None => None,
        }
    }

    pub fn bytes(&self, key: i32) -> (r: Option<&[u8]>)
        ensures
            match r {
                Some(b) => first_value(self.byte_arrays.model(), key) == Some(b@),
                None => first_value(self.byte_arrays.model(), key) is None,
            },
    {
        match lookup(&self.byte_arrays, key) {
            Some(b) => Some(b.data.as_slice()),
            None => None,
        }
    }

    pub fn has_key(&self, key: i32) -> (r: bool)
        ensures
            r == (has_key_in(self.floats.model(), key) || has_key_in(self.vec3s.model(), key)
                || has_key_in(self.quats.model(), key) || has_key_in(self.ints.model(), key)
                || has_key_in(self.longs.model(), key) || has_key_in(self.strings.model(), key)
                || has_key_in(self.byte_arrays.model(), key)),
    {
        let r = lookup(&self.floats, key).is_some() || lookup(&self.vec3s, key).is_some()
            || lookup(&self.quats, key).is_some() || lookup(&self.ints, key).is_some() || lookup(
            &self.longs,
            key,
        ).is_some() || lookup(&self.strings, key).is_some() || lookup(&self.byte_arrays, key).is_some();
        proof {
            lemma_has_key_first(self.floats.model(), key);
            lemma_has_key_first(self.vec3s.model(), key);
            lemma_has_key_first(self.quats.model(), key);
            lemma_has_key_first(self.ints.model(), key);
            lemma_has_key_first(self.longs.model(), key);
            lemma_has_key_first(self.strings.model(), key);
            lemma_has_key_first(self.byte_arrays.model(), key);
        }
        r
    }

    pub fn property_count(&self) -> (n: usize)
        requires
            property_total(self.model()) <= usize::MAX,
        ensures
            n == property_total(self.model()),
    {
        self.floats.entries.len() + self.vec3s.entries.len() + self.quats.entries.len()
            + self.ints.entries.len() + self.longs.entries.len() + self.strings.entries.len()
            + self.byte_arrays.entries.len()
    }

    /// Every property as `(kind, key, value)`, table by table.
    pub fn properties(&self) -> (r: Vec<(PropKind, i32, PropValue<'_>)>)
        ensures
            r@.map_values(|e: (PropKind, i32, PropValue<'_>)| (e.0, e.1, e.2@)) == property_list(
                self.model(),
            ),
    {
        let mut out: Vec<(PropKind, i32, PropValue<'_>)> = Vec::new();
        assert(out@.map_values(|e: (PropKind, i32, PropValue<'_>)| (e.0, e.1, e.2@)) =~= seq![]);
        push_props(&self.floats, &mut out);
        push_props(&self.vec3s, &mut out);
        push_props(&self.quats, &mut out);
        push_props(&self.ints, &mut out);
        push_props(&self.longs, &mut out);
        push_props(&self.strings, &mut out);
        push_props(&self.byte_arrays, &mut out);
        assert(out@.map_values(|e: (PropKind, i32, PropValue<'_>)| (e.0, e.1, e.2@)) =~= property_list(
            self.model(),
        ));
        out
    }
}

proof fn lemma_has_key_first<V>(s: Seq<(i32, V)>, key: i32)
    ensures
        has_key_in(s, key) == (first_with_key(s, key) is Some),
{
}


} // verus!
