//! Serialized items (`ItemDrop.ItemData.Save` / `.Load`).
//!
//! From item-data version 108 each item is the compact record: a flags byte
//! plus only the fields that differ from their defaults, naming the prefab
//! by hash. A single item on an `ItemDrop` ZDO's `itemData` byte array is
//! one version byte, then a compact item.

use vstd::prelude::*;
use crate::primitives::{
    lemma_num_items_roundtrip, num_items_limit, num_items_parse, num_items_ser, read_num_items,
    write_num_items, CsString, StringStringEntry,
};
use crate::seqcodec::{
    all_encodable, lemma_seq_roundtrip, models, parse_pair, parse_seq, read_pair, read_seq, ser_pair,
    ser_seq, write_seq,
};
use crate::versions::{spec_has_cheated, has_cheated, INVENTORY_CURRENT};
use crate::wire::Wire;

verus! {

// ---------------------------------------------------------------- parts

/// The crafter of an item: player id and name.
pub struct Crafter {
    pub id: i64,
    pub name: CsString,
}

impl Crafter {
    pub fn duplicate(&self) -> (r: Crafter)
        ensures
            r.model() == self.model(),
    {
        Crafter { id: self.id, name: self.name.clone() }
    }
}

impl Wire for Crafter {
    type Model = (i64, Seq<char>);

    open spec fn model(&self) -> (i64, Seq<char>) {
        (self.id, self.name.0@)
    }

    open spec fn wire_encodable(m: (i64, Seq<char>)) -> bool {
        <CsString as Wire>::wire_encodable(m.1)
    }

    open spec fn wire_ser(m: (i64, Seq<char>)) -> Seq<u8> {
        ser_pair::<i64, CsString>(m.0, m.1)
    }

    open spec fn wire_parse(b: Seq<u8>) -> Option<((i64, Seq<char>), int)> {
        parse_pair::<i64, CsString>(b)
    }

    proof fn lemma_roundtrip(m: (i64, Seq<char>), rest: Seq<u8>) {
        crate::seqcodec::lemma_pair_roundtrip::<i64, CsString>(m.0, m.1, rest);
    }

    fn read(buf: &[u8], pos: usize) -> (r: Option<(Crafter, usize)>) {
        match read_pair::<i64, CsString>(buf, pos) {
            Some((id, name, p)) => Some((Crafter { id, name }, p)),
            None => None,
        }
    }

    fn write(&self, out: &mut Vec<u8>) {
        self.id.write(out);
        self.name.write(out);
        assert(out@ =~= old(out)@ + Self::wire_ser(self.model()));
    }
}

/// `(string, string)` pairs behind a `NumItems` count rather than an `i32`.
pub struct PackedStringMap {
    pub entries: Vec<StringStringEntry>,
}

impl Wire for PackedStringMap {
    type Model = Seq<(Seq<char>, Seq<char>)>;

    open spec fn model(&self) -> Self::Model {
        models(self.entries@)
    }

    open spec fn wire_encodable(m: Self::Model) -> bool {
        m.len() < num_items_limit(true) && all_encodable::<StringStringEntry>(m)
    }

    open spec fn wire_ser(m: Self::Model) -> Seq<u8> {
        num_items_ser(m.len(), true) + ser_seq::<StringStringEntry>(m)
    }

    open spec fn wire_parse(b: Seq<u8>) -> Option<(Self::Model, int)> {
        match num_items_parse(b, true) {
            Some((c, k)) => match parse_seq::<StringStringEntry>(b.skip(k), c) {
                Some((es, j)) => Some((es, k + j)),
                None => None,
            },
            None => None,
        }
    }

    proof fn lemma_roundtrip(m: Self::Model, rest: Seq<u8>) {
        let head = num_items_ser(m.len(), true);
        let b = Self::wire_ser(m) + rest;
        assert(b =~= head + (ser_seq::<StringStringEntry>(m) + rest));
        lemma_num_items_roundtrip(m.len(), true, ser_seq::<StringStringEntry>(m) + rest);
        assert(b.skip(head.len() as int) =~= ser_seq::<StringStringEntry>(m) + rest);
        lemma_seq_roundtrip::<StringStringEntry>(m, rest);
    }

    fn read(buf: &[u8], pos: usize) -> (r: Option<(PackedStringMap, usize)>) {
        match read_num_items(buf, pos, true) {
            Some((c, p)) => {
                assert(buf@.skip(pos as int).skip(p - pos) =~= buf@.skip(p as int));
                match read_seq::<StringStringEntry>(buf, p, c) {
                    Some((entries, q)) => Some((PackedStringMap { entries }, q)),
                    None => None,
                }
            },
            None => None,
        }
    }

    fn write(&self, out: &mut Vec<u8>) {
        let _ = write_num_items(out, self.entries.len(), true);
        write_seq(&self.entries, out);
        assert(out@ =~= old(out)@ + Self::wire_ser(self.model()));
    }
}

// ---------------------------------------------------------------- optional fields

/// An optional field's bytes: its value's, or nothing.
pub open spec fn ser_opt<T: Wire>(o: Option<T::Model>) -> Seq<u8> {
    match o {
        Some(m) => T::wire_ser(m),
        None => seq![],
    }
}

/// An optional field off the front of `b`: a value when `present`, else
/// nothing and no bytes.
pub open spec fn parse_opt<T: Wire>(b: Seq<u8>, present: bool) -> Option<(Option<T::Model>, int)> {
    if present {
        match T::wire_parse(b) {
            Some((m, k)) => Some((Some(m), k)),
            None => None,
        }
    } else {
        Some((None, 0))
    }
}

/// Whether an optional field can be written.
pub open spec fn opt_encodable<T: Wire>(o: Option<T::Model>) -> bool {
    match o {
        Some(m) => T::wire_encodable(m),
        None => true,
    }
}

/// The model of an optional value.
pub open spec fn opt_model<T: Wire>(o: Option<T>) -> Option<T::Model> {
    match o {
        Some(x) => Some(x.model()),
        None => None,
    }
}

pub proof fn lemma_opt_roundtrip<T: Wire>(o: Option<T::Model>, rest: Seq<u8>)
    requires
        opt_encodable::<T>(o),
    ensures
        parse_opt::<T>(ser_opt::<T>(o) + rest, o is Some) == Some((o, ser_opt::<T>(o).len() as int)),
{
    match o {
        Some(m) => T::lemma_roundtrip(m, rest),
        None => {
            assert(ser_opt::<T>(o) + rest =~= rest);
        },
    }
}

pub(crate) fn read_opt<T: Wire>(buf: &[u8], pos: usize, present: bool) -> (r: Option<(Option<T>, usize)>)
    requires
        pos <= buf@.len(),
    ensures
        match r {
            Some((o, p)) => pos <= p <= buf@.len() && parse_opt::<T>(buf@.skip(pos as int), present)
                == Some((opt_model(o), p - pos)),
            None => parse_opt::<T>(buf@.skip(pos as int), present) is None,
        },
{
    if present {
        match T::read(buf, pos) {
            Some((x, p)) => Some((Some(x), p)),
            None => None,
        }
    } else {
        Some((None, pos))
    }
}

pub(crate) fn write_opt<T: Wire>(o: &Option<T>, out: &mut Vec<u8>)
    requires
        opt_encodable::<T>(opt_model(*o)),
    ensures
        final(out)@ == old(out)@ + ser_opt::<T>(opt_model(*o)),
{
    match o {
        Some(x) => x.write(out),
        None => {
            assert(out@ =~= old(out)@ + ser_opt::<T>(opt_model(*o)));
        },
    }
}

// ---------------------------------------------------------------- the compact item

pub const ITEM_PICKED_UP: u8 = 0x01;
pub const ITEM_EQUIPPED: u8 = 0x02;
pub const ITEM_QUALITY: u8 = 0x04;
pub const ITEM_STACK: u8 = 0x08;
pub const ITEM_VARIANT: u8 = 0x10;
pub const ITEM_CRAFTER: u8 = 0x20;
pub const ITEM_PREFAB: u8 = 0x40;
pub const ITEM_CUSTOM_DATA: u8 = 0x80;

/// The item record from version 108. Each optional field is present exactly
/// when its bit in the flags byte is set, and the game sets a bit only for a
/// value that is not the default.
pub struct CompactItem {
    /// Durability in hundredths, truncated.
    pub durability_hundredths: i32,
    pub grid_x: u8,
    pub grid_y: u8,
    pub world_level: u8,
    pub picked_up: bool,
    pub equipped: bool,
    /// Absent when 1.
    pub quality: Option<u16>,
    /// Absent when 1.
    pub stack: Option<u16>,
    /// Absent when 0.
    pub variant: Option<i32>,
    /// Absent when the crafter id is 0, name and all.
    pub crafter: Option<Crafter>,
    /// `GetStableHashCode` of the drop prefab name; absent when the item has
    /// no prefab.
    pub prefab_hash: Option<i32>,
    pub custom_data: Option<PackedStringMap>,
    /// Bit 0 is `m_cheated`; present in versions that carry the flag.
    pub cheated_flags: Option<u8>,
}

/// A compact item as plain values.
pub struct CompactModel {
    pub durability_hundredths: i32,
    pub grid_x: u8,
    pub grid_y: u8,
    pub world_level: u8,
    pub picked_up: bool,
    pub equipped: bool,
    pub quality: Option<u16>,
    pub stack: Option<u16>,
    pub variant: Option<i32>,
    pub crafter: Option<(i64, Seq<char>)>,
    pub prefab_hash: Option<i32>,
    pub custom_data: Option<Seq<(Seq<char>, Seq<char>)>>,
    pub cheated_flags: Option<u8>,
}

/// 1 for true, 0 for false.
pub open spec fn b01(b: bool) -> u8 {
    if b {
        1
    } else {
        0
    }
}

/// The flags byte `ItemData.Save` writes for `m`.
pub open spec fn item_flags(m: CompactModel) -> u8 {
    (b01(m.picked_up) + b01(m.equipped) * 2 + b01(m.quality is Some) * 4 + b01(m.stack is Some) * 8
        + b01(m.variant is Some) * 16 + b01(m.crafter is Some) * 32 + b01(m.prefab_hash is Some) * 64
        + b01(m.custom_data is Some) * 128) as u8
}

/// Whether bit `unit` of a flags byte is set.
pub open spec fn item_flag(f: u8, unit: u8) -> bool {
    (f / unit) % 2 == 1
}

proof fn lemma_item_bits(f: u8, c0: u8, c1: u8, c2: u8, c3: u8, c4: u8, c5: u8, c6: u8, c7: u8)
    by (bit_vector)
    requires
        c0 <= 1 && c1 <= 1 && c2 <= 1 && c3 <= 1 && c4 <= 1 && c5 <= 1 && c6 <= 1 && c7 <= 1,
        f == (c0 + c1 * 2 + c2 * 4 + c3 * 8 + c4 * 16 + c5 * 32 + c6 * 64 + c7 * 128) as u8,
    ensures
        (f / 1) % 2 == c0,
        (f / 2) % 2 == c1,
        (f / 4) % 2 == c2,
        (f / 8) % 2 == c3,
        (f / 16) % 2 == c4,
        (f / 32) % 2 == c5,
        (f / 64) % 2 == c6,
        (f / 128) % 2 == c7,
{
}

proof fn lemma_item_flags(m: CompactModel)
    ensures
        item_flag(item_flags(m), ITEM_PICKED_UP) == m.picked_up,
        item_flag(item_flags(m), ITEM_EQUIPPED) == m.equipped,
        item_flag(item_flags(m), ITEM_QUALITY) == (m.quality is Some),
        item_flag(item_flags(m), ITEM_STACK) == (m.stack is Some),
        item_flag(item_flags(m), ITEM_VARIANT) == (m.variant is Some),
        item_flag(item_flags(m), ITEM_CRAFTER) == (m.crafter is Some),
        item_flag(item_flags(m), ITEM_PREFAB) == (m.prefab_hash is Some),
        item_flag(item_flags(m), ITEM_CUSTOM_DATA) == (m.custom_data is Some),
{
    lemma_item_bits(
        item_flags(m),
        b01(m.picked_up),
        b01(m.equipped),
        b01(m.quality is Some),
        b01(m.stack is Some),
        b01(m.variant is Some),
        b01(m.crafter is Some),
        b01(m.prefab_hash is Some),
        b01(m.custom_data is Some),
    );
}

/// The flags byte for the given fields.
pub fn pack_item_flags(
    picked_up: bool,
    equipped: bool,
    quality: bool,
    stack: bool,
    variant: bool,
    crafter: bool,
    prefab_hash: bool,
    custom_data: bool,
) -> (f: u8)
    ensures
        f == (b01(picked_up) + b01(equipped) * 2 + b01(quality) * 4 + b01(stack) * 8 + b01(variant) * 16
            + b01(crafter) * 32 + b01(prefab_hash) * 64 + b01(custom_data) * 128) as u8,
{
    let mut f: u8 = 0;
    if picked_up {
        f = f + ITEM_PICKED_UP;
    }
    if equipped {
        f = f + ITEM_EQUIPPED;
    }
    if quality {
        f = f + ITEM_QUALITY;
    }
    if stack {
        f = f + ITEM_STACK;
    }
    if variant {
        f = f + ITEM_VARIANT;
    }
    if crafter {
        f = f + ITEM_CRAFTER;
    }
    if prefab_hash {
        f = f + ITEM_PREFAB;
    }
    if custom_data {
        f = f + ITEM_CUSTOM_DATA;
    }
    f
}

/// The optional fields after the flags byte.
pub struct TailModel {
    pub quality: Option<u16>,
    pub stack: Option<u16>,
    pub variant: Option<i32>,
    pub crafter: Option<(i64, Seq<char>)>,
    pub prefab_hash: Option<i32>,
    pub custom_data: Option<Seq<(Seq<char>, Seq<char>)>>,
    pub cheated_flags: Option<u8>,
}

/// The optional fields of `m`.
pub open spec fn tail_of(m: CompactModel) -> TailModel {
    TailModel {
        quality: m.quality,
        stack: m.stack,
        variant: m.variant,
        crafter: m.crafter,
        prefab_hash: m.prefab_hash,
        custom_data: m.custom_data,
        cheated_flags: m.cheated_flags,
    }
}

// The optional fields are specified as a chain, as the ZDO record is: each
// part's bytes are followed by the rest of the chain.

#[verifier::opaque]
pub open spec fn ser_t7(m: CompactModel) -> Seq<u8> {
    ser_opt::<u8>(m.cheated_flags)
}

#[verifier::opaque]
pub open spec fn ser_t6(m: CompactModel) -> Seq<u8> {
    ser_opt::<PackedStringMap>(m.custom_data) + ser_t7(m)
}

#[verifier::opaque]
pub open spec fn ser_t5(m: CompactModel) -> Seq<u8> {
    ser_opt::<i32>(m.prefab_hash) + ser_t6(m)
}

#[verifier::opaque]
pub open spec fn ser_t4(m: CompactModel) -> Seq<u8> {
    ser_opt::<Crafter>(m.crafter) + ser_t5(m)
}

#[verifier::opaque]
pub open spec fn ser_t3(m: CompactModel) -> Seq<u8> {
    ser_opt::<i32>(m.variant) + ser_t4(m)
}

#[verifier::opaque]
pub open spec fn ser_t2(m: CompactModel) -> Seq<u8> {
    ser_opt::<u16>(m.stack) + ser_t3(m)
}

/// The optional fields after the flags byte, in file order.
#[verifier::opaque]
pub open spec fn ser_item_tail(m: CompactModel) -> Seq<u8> {
    ser_opt::<u16>(m.quality) + ser_t2(m)
}

/// The bytes `ItemData.Save` writes for `m`.
pub open spec fn ser_item(m: CompactModel) -> Seq<u8> {
    <i32 as Wire>::wire_ser(m.durability_hundredths) + <u8 as Wire>::wire_ser(m.grid_x)
        + <u8 as Wire>::wire_ser(m.grid_y) + <u8 as Wire>::wire_ser(m.world_level) + <u8 as Wire>::wire_ser(
        item_flags(m),
    ) + ser_item_tail(m)
}

#[verifier::opaque]
pub open spec fn parse_t7(b: Seq<u8>, f: u8, version: i32) -> Option<(TailModel, int)> {
    match parse_opt::<u8>(b, spec_has_cheated(version)) {
        None => None,
        Some((x, k)) => Some(
            (
                TailModel {
                    quality: None,
                    stack: None,
                    variant: None,
                    crafter: None,
                    prefab_hash: None,
                    custom_data: None,
                    cheated_flags: x,
                },
                k,
            ),
        ),
    }
}

#[verifier::opaque]
pub open spec fn parse_t6(b: Seq<u8>, f: u8, version: i32) -> Option<(TailModel, int)> {
    match parse_opt::<PackedStringMap>(b, item_flag(f, ITEM_CUSTOM_DATA)) {
        None => None,
        Some((d, k)) => match parse_t7(b.skip(k), f, version) {
            None => None,
            Some((t, j)) => Some((TailModel { custom_data: d, ..t }, k + j)),
        },
    }
}

#[verifier::opaque]
pub open spec fn parse_t5(b: Seq<u8>, f: u8, version: i32) -> Option<(TailModel, int)> {
    match parse_opt::<i32>(b, item_flag(f, ITEM_PREFAB)) {
        None => None,
        Some((p, k)) => match parse_t6(b.skip(k), f, version) {
            None => None,
            Some((t, j)) => Some((TailModel { prefab_hash: p, ..t }, k + j)),
        },
    }
}

#[verifier::opaque]
pub open spec fn parse_t4(b: Seq<u8>, f: u8, version: i32) -> Option<(TailModel, int)> {
    match parse_opt::<Crafter>(b, item_flag(f, ITEM_CRAFTER)) {
        None => None,
        Some((c, k)) => match parse_t5(b.skip(k), f, version) {
            None => None,
            Some((t, j)) => Some((TailModel { crafter: c, ..t }, k + j)),
        },
    }
}

#[verifier::opaque]
pub open spec fn parse_t3(b: Seq<u8>, f: u8, version: i32) -> Option<(TailModel, int)> {
    match parse_opt::<i32>(b, item_flag(f, ITEM_VARIANT)) {
        None => None,
        Some((v, k)) => match parse_t4(b.skip(k), f, version) {
            None => None,
            Some((t, j)) => Some((TailModel { variant: v, ..t }, k + j)),
        },
    }
}

#[verifier::opaque]
pub open spec fn parse_t2(b: Seq<u8>, f: u8, version: i32) -> Option<(TailModel, int)> {
    match parse_opt::<u16>(b, item_flag(f, ITEM_STACK)) {
        None => None,
        Some((s, k)) => match parse_t3(b.skip(k), f, version) {
            None => None,
            Some((t, j)) => Some((TailModel { stack: s, ..t }, k + j)),
        },
    }
}

/// The optional fields off the front of `b`, as the flags byte `f` and the
/// item-data `version` say.
#[verifier::opaque]
pub open spec fn parse_item_tail(b: Seq<u8>, f: u8, version: i32) -> Option<(TailModel, int)> {
    match parse_opt::<u16>(b, item_flag(f, ITEM_QUALITY)) {
        None => None,
        Some((q, k)) => match parse_t2(b.skip(k), f, version) {
            None => None,
            Some((t, j)) => Some((TailModel { quality: q, ..t }, k + j)),
        },
    }
}

/// The fixed part of an item: durability, grid position, world level and
/// the flags byte.
pub open spec fn parse_item_head(b: Seq<u8>) -> (i32, u8, u8, u8, u8) {
    (
        <i32 as Wire>::wire_parse(b).unwrap().0,
        <u8 as Wire>::wire_parse(b.skip(4)).unwrap().0,
        <u8 as Wire>::wire_parse(b.skip(5)).unwrap().0,
        <u8 as Wire>::wire_parse(b.skip(6)).unwrap().0,
        <u8 as Wire>::wire_parse(b.skip(7)).unwrap().0,
    )
}

/// The item made of a fixed part and optional fields.
pub open spec fn item_of(h: (i32, u8, u8, u8, u8), t: TailModel) -> CompactModel {
    CompactModel {
        durability_hundredths: h.0,
        grid_x: h.1,
        grid_y: h.2,
        world_level: h.3,
        picked_up: item_flag(h.4, ITEM_PICKED_UP),
        equipped: item_flag(h.4, ITEM_EQUIPPED),
        quality: t.quality,
        stack: t.stack,
        variant: t.variant,
        crafter: t.crafter,
        prefab_hash: t.prefab_hash,
        custom_data: t.custom_data,
        cheated_flags: t.cheated_flags,
    }
}

/// A compact item of item-data `version` off the front of `b`.
pub open spec fn parse_item(b: Seq<u8>, version: i32) -> Option<(CompactModel, int)> {
    if b.len() < 8 {
        None
    } else {
        let h = parse_item_head(b);
        match parse_item_tail(b.skip(8), h.4, version) {
            None => None,
            Some((t, k)) => Some((item_of(h, t), 8 + k)),
        }
    }
}

/// Whether `m` can be written and read back at item-data `version`: its
/// cheated flag is there exactly when the version carries one, and its
/// strings and custom data fit their encodings.
pub open spec fn item_encodable(m: CompactModel, version: i32) -> bool {
    &&& (m.cheated_flags is Some) == spec_has_cheated(version)
    &&& opt_encodable::<Crafter>(m.crafter)
    &&& opt_encodable::<PackedStringMap>(m.custom_data)
}

fn read_t7(buf: &[u8], pos: usize, f: u8, version: i32) -> (r: Option<(Option<u8>, usize)>)
    requires
        pos <= buf@.len(),
    ensures
        match r {
            Some((x, p)) => pos <= p <= buf@.len() && (parse_t7(buf@.skip(pos as int), f, version) matches Some(
                (t, k),
            ) && t.cheated_flags == x && k == p - pos),
            None => parse_t7(buf@.skip(pos as int), f, version) is None,
        },
{
    reveal(parse_t7);
    read_opt::<u8>(buf, pos, has_cheated(version))
}

fn read_t6(buf: &[u8], pos: usize, f: u8, version: i32) -> (r: Option<(Option<PackedStringMap>, Option<u8>, usize)>)
    requires
        pos <= buf@.len(),
    ensures
        match r {
            Some((d, x, p)) => pos <= p <= buf@.len() && (parse_t6(buf@.skip(pos as int), f, version) matches Some(
                (t, k),
            ) && t.custom_data == opt_model(d) && t.cheated_flags == x && k == p - pos),
            None => parse_t6(buf@.skip(pos as int), f, version) is None,
        },
{
    reveal(parse_t6);
    match read_opt::<PackedStringMap>(buf, pos, (f / ITEM_CUSTOM_DATA) % 2 == 1) {
        None => None,
        Some((d, p)) => {
            assert(buf@.skip(pos as int).skip(p - pos) =~= buf@.skip(p as int));
            match read_t7(buf, p, f, version) {
                None => None,
                Some((x, q)) => Some((d, x, q)),
            }
        },
    }
}

fn read_t5(buf: &[u8], pos: usize, f: u8, version: i32) -> (r: Option<(Option<i32>, Option<PackedStringMap>, Option<u8>, usize)>)
    requires
        pos <= buf@.len(),
    ensures
        match r {
            Some((ph, d, x, p)) => pos <= p <= buf@.len() && (parse_t5(buf@.skip(pos as int), f, version) matches Some(
                (t, k),
            ) && t.prefab_hash == ph && t.custom_data == opt_model(d) && t.cheated_flags == x && k == p - pos),
            None => parse_t5(buf@.skip(pos as int), f, version) is None,
        },
{
    reveal(parse_t5);
    match read_opt::<i32>(buf, pos, (f / ITEM_PREFAB) % 2 == 1) {
        None => None,
        Some((ph, p)) => {
            assert(buf@.skip(pos as int).skip(p - pos) =~= buf@.skip(p as int));
            match read_t6(buf, p, f, version) {
                None => None,
                Some((d, x, q)) => Some((ph, d, x, q)),
            }
        },
    }
}

/// The optional fields read off `buf`, from the crafter on.
struct Tail4 {
    crafter: Option<Crafter>,
    prefab_hash: Option<i32>,
    custom_data: Option<PackedStringMap>,
    cheated_flags: Option<u8>,
}

fn read_t4(buf: &[u8], pos: usize, f: u8, version: i32) -> (r: Option<(Tail4, usize)>)
    requires
        pos <= buf@.len(),
    ensures
        match r {
            Some((a, p)) => pos <= p <= buf@.len() && (parse_t4(buf@.skip(pos as int), f, version) matches Some(
                (t, k),
            ) && t.crafter == opt_model(a.crafter) && t.prefab_hash == a.prefab_hash && t.custom_data
                == opt_model(a.custom_data) && t.cheated_flags == a.cheated_flags && k == p - pos),
            None => parse_t4(buf@.skip(pos as int), f, version) is None,
        },
{
    reveal(parse_t4);
    match read_opt::<Crafter>(buf, pos, (f / ITEM_CRAFTER) % 2 == 1) {
        None => None,
        Some((c, p)) => {
            assert(buf@.skip(pos as int).skip(p - pos) =~= buf@.skip(p as int));
            match read_t5(buf, p, f, version) {
                None => None,
                Some((ph, d, x, q)) => Some(
                    (Tail4 { crafter: c, prefab_hash: ph, custom_data: d, cheated_flags: x }, q),
                ),
            }
        },
    }
}

fn read_t3(buf: &[u8], pos: usize, f: u8, version: i32) -> (r: Option<(Option<i32>, Tail4, usize)>)
    requires
        pos <= buf@.len(),
    ensures
        match r {
            Some((v, a, p)) => pos <= p <= buf@.len() && (parse_t3(buf@.skip(pos as int), f, version) matches Some(
                (t, k),
            ) && t.variant == v && t.crafter == opt_model(a.crafter) && t.prefab_hash == a.prefab_hash
                && t.custom_data == opt_model(a.custom_data) && t.cheated_flags == a.cheated_flags && k
                == p - pos),
            None => parse_t3(buf@.skip(pos as int), f, version) is None,
        },
{
    reveal(parse_t3);
    match read_opt::<i32>(buf, pos, (f / ITEM_VARIANT) % 2 == 1) {
        None => None,
        Some((v, p)) => {
            assert(buf@.skip(pos as int).skip(p - pos) =~= buf@.skip(p as int));
            match read_t4(buf, p, f, version) {
                None => None,
                Some((a, q)) => Some((v, a, q)),
            }
        },
    }
}

fn read_t2(buf: &[u8], pos: usize, f: u8, version: i32) -> (r: Option<(Option<u16>, Option<i32>, Tail4, usize)>)
    requires
        pos <= buf@.len(),
    ensures
        match r {
            Some((s, v, a, p)) => pos <= p <= buf@.len() && (parse_t2(buf@.skip(pos as int), f, version) matches Some(
                (t, k),
            ) && t.stack == s && t.variant == v && t.crafter == opt_model(a.crafter) && t.prefab_hash
                == a.prefab_hash && t.custom_data == opt_model(a.custom_data) && t.cheated_flags
                == a.cheated_flags && k == p - pos),
            None => parse_t2(buf@.skip(pos as int), f, version) is None,
        },
{
    reveal(parse_t2);
    match read_opt::<u16>(buf, pos, (f / ITEM_STACK) % 2 == 1) {
        None => None,
        Some((s, p)) => {
            assert(buf@.skip(pos as int).skip(p - pos) =~= buf@.skip(p as int));
            match read_t3(buf, p, f, version) {
                None => None,
                Some((v, a, q)) => Some((s, v, a, q)),
            }
        },
    }
}

impl CompactItem {
    pub open spec fn model(&self) -> CompactModel {
        CompactModel {
            durability_hundredths: self.durability_hundredths,
            grid_x: self.grid_x,
            grid_y: self.grid_y,
            world_level: self.world_level,
            picked_up: self.picked_up,
            equipped: self.equipped,
            quality: self.quality,
            stack: self.stack,
            variant: self.variant,
            crafter: opt_model(self.crafter),
            prefab_hash: self.prefab_hash,
            custom_data: opt_model(self.custom_data),
            cheated_flags: self.cheated_flags,
        }
    }

    /// Read an item of item-data `version` at `pos`.
    pub fn read(buf: &[u8], pos: usize, version: i32) -> (r: Option<(CompactItem, usize)>)
        requires
            pos <= buf@.len(),
        ensures
            match r {
                Some((it, p)) => pos <= p <= buf@.len() && parse_item(buf@.skip(pos as int), version)
                    == Some((it.model(), p - pos)),
                None => parse_item(buf@.skip(pos as int), version) is None,
            },
    {
        let ghost b = buf@.skip(pos as int);
        if buf.len() - pos < 8 {
            return None;
        }
        let (d, p1) = <i32 as Wire>::read(buf, pos).unwrap();
        let (gx, p2) = <u8 as Wire>::read(buf, p1).unwrap();
        let (gy, p3) = <u8 as Wire>::read(buf, p2).unwrap();
        let (wl, p4) = <u8 as Wire>::read(buf, p3).unwrap();
        let (f, p5) = <u8 as Wire>::read(buf, p4).unwrap();
        proof {
            assert(b.skip(4) =~= buf@.skip(p1 as int));
            assert(b.skip(5) =~= buf@.skip(p2 as int));
            assert(b.skip(6) =~= buf@.skip(p3 as int));
            assert(b.skip(7) =~= buf@.skip(p4 as int));
            assert(b.skip(8) =~= buf@.skip(p5 as int));
        }
        let ghost h = parse_item_head(b);
        assert(h == (d, gx, gy, wl, f));
        proof {
            reveal(parse_item_tail);
        }
        let (quality, q1) = match read_opt::<u16>(buf, p5, (f / ITEM_QUALITY) % 2 == 1) {
            Some(x) => x,
            None => {
                return None;
            },
        };
        assert(buf@.skip(p5 as int).skip(q1 - p5) =~= buf@.skip(q1 as int));
        let (stack, variant, a, q) = match read_t2(buf, q1, f, version) {
            Some(x) => x,
            None => {
                return None;
            },
        };
        let it = CompactItem {
            durability_hundredths: d,
            grid_x: gx,
            grid_y: gy,
            world_level: wl,
            picked_up: (f / ITEM_PICKED_UP) % 2 == 1,
            equipped: (f / ITEM_EQUIPPED) % 2 == 1,
            quality,
            stack,
            variant,
            crafter: a.crafter,
            prefab_hash: a.prefab_hash,
            custom_data: a.custom_data,
            cheated_flags: a.cheated_flags,
        };
        Some((it, q))
    }

    #[verifier::spinoff_prover]
    #[verifier::rlimit(40)]
    fn write_tail(&self, out: &mut Vec<u8>)
        requires
            opt_encodable::<Crafter>(self.model().crafter),
            opt_encodable::<PackedStringMap>(self.model().custom_data),
        ensures
            final(out)@ == old(out)@ + ser_item_tail(self.model()),
    {
        let ghost m = self.model();
        reveal(ser_item_tail);
        reveal(ser_t2);
        reveal(ser_t3);
        reveal(ser_t4);
        reveal(ser_t5);
        reveal(ser_t6);
        reveal(ser_t7);
        let ghost o0 = out@;
        write_opt(&self.quality, out);
        let ghost o1 = out@;
        write_opt(&self.stack, out);
        let ghost o2 = out@;
        write_opt(&self.variant, out);
        let ghost o3 = out@;
        write_opt(&self.crafter, out);
        let ghost o4 = out@;
        write_opt(&self.prefab_hash, out);
        let ghost o5 = out@;
        write_opt(&self.custom_data, out);
        let ghost o6 = out@;
        write_opt(&self.cheated_flags, out);
        assert(out@ =~= o6 + ser_t7(m));
        assert(out@ =~= o5 + ser_t6(m));
        assert(out@ =~= o4 + ser_t5(m));
        assert(out@ =~= o3 + ser_t4(m));
        assert(out@ =~= o2 + ser_t3(m));
        assert(out@ =~= o1 + ser_t2(m));
        assert(out@ =~= o0 + ser_item_tail(m));
    }

    /// Write the item (`ItemData.Save`).
    pub fn write(&self, out: &mut Vec<u8>)
        requires
            opt_encodable::<Crafter>(self.model().crafter),
            opt_encodable::<PackedStringMap>(self.model().custom_data),
        ensures
            final(out)@ == old(out)@ + ser_item(self.model()),
    {
        let ghost m = self.model();
        self.durability_hundredths.write(out);
        self.grid_x.write(out);
        self.grid_y.write(out);
        self.world_level.write(out);
        let f = pack_item_flags(
            self.picked_up,
            self.equipped,
            self.quality.is_some(),
            self.stack.is_some(),
            self.variant.is_some(),
            self.crafter.is_some(),
            self.prefab_hash.is_some(),
            self.custom_data.is_some(),
        );
        assert(f == item_flags(m));
        f.write(out);
        let ghost o = out@;
        self.write_tail(out);
        assert(out@ =~= old(out)@ + ser_item(m));
    }
}

proof fn lemma_opt_chain<T: Wire>(o: Option<T::Model>, next: Seq<u8>, rest: Seq<u8>)
    requires
        opt_encodable::<T>(o),
    ensures
        parse_opt::<T>(ser_opt::<T>(o) + next + rest, o is Some) == Some((o, ser_opt::<T>(o).len() as int)),
        (ser_opt::<T>(o) + next + rest).skip(ser_opt::<T>(o).len() as int) == next + rest,
{
    assert(ser_opt::<T>(o) + next + rest =~= ser_opt::<T>(o) + (next + rest));
    lemma_opt_roundtrip::<T>(o, next + rest);
    assert((ser_opt::<T>(o) + next + rest).skip(ser_opt::<T>(o).len() as int) =~= next + rest);
}

proof fn lemma_tail_roundtrip(m: CompactModel, version: i32, rest: Seq<u8>)
    requires
        item_encodable(m, version),
    ensures
        parse_item_tail(ser_item_tail(m) + rest, item_flags(m), version) == Some(
            (tail_of(m), ser_item_tail(m).len() as int),
        ),
{
    lemma_item_flags(m);
    let f = item_flags(m);
    reveal(ser_t7);
    reveal(parse_t7);
    lemma_opt_roundtrip::<u8>(m.cheated_flags, rest);
    assert(parse_t7(ser_t7(m) + rest, f, version) matches Some((t, k)) && t.cheated_flags == m.cheated_flags
        && k == ser_t7(m).len());
    reveal(ser_t6);
    reveal(parse_t6);
    lemma_opt_chain::<PackedStringMap>(m.custom_data, ser_t7(m), rest);
    assert(ser_t6(m) + rest == ser_opt::<PackedStringMap>(m.custom_data) + ser_t7(m) + rest);
    assert(parse_t6(ser_t6(m) + rest, f, version) matches Some((t, k)) && t.custom_data == m.custom_data
        && t.cheated_flags == m.cheated_flags && k == ser_t6(m).len());
    reveal(ser_t5);
    reveal(parse_t5);
    lemma_opt_chain::<i32>(m.prefab_hash, ser_t6(m), rest);
    assert(ser_t5(m) + rest == ser_opt::<i32>(m.prefab_hash) + ser_t6(m) + rest);
    assert(parse_t5(ser_t5(m) + rest, f, version) matches Some((t, k)) && t.prefab_hash == m.prefab_hash
        && t.custom_data == m.custom_data && t.cheated_flags == m.cheated_flags && k == ser_t5(m).len());
    reveal(ser_t4);
    reveal(parse_t4);
    lemma_opt_chain::<Crafter>(m.crafter, ser_t5(m), rest);
    assert(ser_t4(m) + rest == ser_opt::<Crafter>(m.crafter) + ser_t5(m) + rest);
    assert(parse_t4(ser_t4(m) + rest, f, version) matches Some((t, k)) && t.crafter == m.crafter
        && t.prefab_hash == m.prefab_hash && t.custom_data == m.custom_data && t.cheated_flags
        == m.cheated_flags && k == ser_t4(m).len());
    reveal(ser_t3);
    reveal(parse_t3);
    lemma_opt_chain::<i32>(m.variant, ser_t4(m), rest);
    assert(ser_t3(m) + rest == ser_opt::<i32>(m.variant) + ser_t4(m) + rest);
    assert(parse_t3(ser_t3(m) + rest, f, version) matches Some((t, k)) && t.variant == m.variant
        && t.crafter == m.crafter && t.prefab_hash == m.prefab_hash && t.custom_data == m.custom_data
        && t.cheated_flags == m.cheated_flags && k == ser_t3(m).len());
    reveal(ser_t2);
    reveal(parse_t2);
    lemma_opt_chain::<u16>(m.stack, ser_t3(m), rest);
    assert(ser_t2(m) + rest == ser_opt::<u16>(m.stack) + ser_t3(m) + rest);
    assert(parse_t2(ser_t2(m) + rest, f, version) matches Some((t, k)) && t.stack == m.stack && t.variant
        == m.variant && t.crafter == m.crafter && t.prefab_hash == m.prefab_hash && t.custom_data
        == m.custom_data && t.cheated_flags == m.cheated_flags && k == ser_t2(m).len());
    reveal(ser_item_tail);
    reveal(parse_item_tail);
    lemma_opt_chain::<u16>(m.quality, ser_t2(m), rest);
    assert(ser_item_tail(m) + rest == ser_opt::<u16>(m.quality) + ser_t2(m) + rest);
}

/// Writing a compact item and reading it back at an item-data version whose
/// cheated flag it matches gives the item back, whatever follows it.
pub proof fn lemma_item_roundtrip(m: CompactModel, version: i32, rest: Seq<u8>)
    requires
        item_encodable(m, version),
    ensures
        parse_item(ser_item(m) + rest, version) == Some((m, ser_item(m).len() as int)),
{
    lemma_item_flags(m);
    let h0 = <i32 as Wire>::wire_ser(m.durability_hundredths);
    let h1 = <u8 as Wire>::wire_ser(m.grid_x);
    let h2 = <u8 as Wire>::wire_ser(m.grid_y);
    let h3 = <u8 as Wire>::wire_ser(m.world_level);
    let h4 = <u8 as Wire>::wire_ser(item_flags(m));
    let tail = ser_item_tail(m);
    let b = ser_item(m) + rest;
    <i32 as Wire>::lemma_roundtrip(m.durability_hundredths, h1 + h2 + h3 + h4 + tail + rest);
    <u8 as Wire>::lemma_roundtrip(m.grid_x, h2 + h3 + h4 + tail + rest);
    <u8 as Wire>::lemma_roundtrip(m.grid_y, h3 + h4 + tail + rest);
    <u8 as Wire>::lemma_roundtrip(m.world_level, h4 + tail + rest);
    <u8 as Wire>::lemma_roundtrip(item_flags(m), tail + rest);
    assert(b =~= h0 + (h1 + h2 + h3 + h4 + tail + rest));
    assert(b.skip(4) =~= h1 + (h2 + h3 + h4 + tail + rest));
    assert(b.skip(5) =~= h2 + (h3 + h4 + tail + rest));
    assert(b.skip(6) =~= h3 + (h4 + tail + rest));
    assert(b.skip(7) =~= h4 + (tail + rest));
    assert(b.skip(8) =~= tail + rest);
    lemma_tail_roundtrip(m, version, rest);
    assert(item_of(parse_item_head(b), tail_of(m)) == m);
}

// ---------------------------------------------------------------- fitting the encoding

/// Whether a string fits its length prefix: under 4 GiB of UTF-8.
pub fn string_fits(s: &CsString) -> (r: bool)
    ensures
        r == <CsString as Wire>::wire_encodable(s.model()),
{
    let n = s.0.as_str().as_bytes().len();
    (n as u64) < 0x1_0000_0000u64
}

/// Whether custom data fits its encoding: fewer than 32768 pairs, each
/// string under 4 GiB.
pub fn custom_data_fits(d: &PackedStringMap) -> (r: bool)
    ensures
        r == <PackedStringMap as Wire>::wire_encodable(d.model()),
{
    let n = d.entries.len();
    if n >= 0x8000 {
        return false;
    }
    let mut i: usize = 0;
    while i < n
        invariant
            i <= n,
            n == d.entries@.len(),
            forall|j: int| 0 <= j < i ==> #[trigger] <StringStringEntry as Wire>::wire_encodable(d.model()[j]),
        decreases n - i,
    {
        assert(d.model()[i as int] == d.entries@[i as int].model());
        if !string_fits(&d.entries[i].key) || !string_fits(&d.entries[i].value) {
            return false;
        }
        i = i + 1;
    }
    true
}

/// Whether `item` can be written: its crafter name and custom data fit their
/// length prefixes.
pub fn item_fits(item: &CompactItem) -> (r: bool)
    ensures
        r == (opt_encodable::<Crafter>(item.model().crafter) && opt_encodable::<PackedStringMap>(
            item.model().custom_data,
        )),
{
    let c = match &item.crafter {
        Some(c) => string_fits(&c.name),
        None => true,
    };
    let d = match &item.custom_data {
        Some(d) => custom_data_fits(d),
        None => true,
    };
    c && d
}

// ---------------------------------------------------------------- single items

/// A single item as stored on an `ItemDrop` ZDO's `itemData` byte array: a
/// one-byte item-data version, then the item.
pub struct SingleItem {
    pub version: u8,
    pub item: CompactItem,
}

/// The bytes of a single item.
pub open spec fn ser_single(version: u8, m: CompactModel) -> Seq<u8> {
    seq![version] + ser_item(m)
}

/// A single item filling all of `b`.
pub open spec fn parse_single(b: Seq<u8>) -> Option<(u8, CompactModel)> {
    if b.len() == 0 {
        None
    } else {
        match parse_item(b.skip(1), b[0] as i32) {
            Some((m, k)) => if 1 + k == b.len() {
                Some((b[0], m))
            } else {
                None
            },
            None => None,
        }
    }
}

/// The bytes of a single item of item-data `version` holding `item`.
pub fn single_bytes(version: u8, item: &CompactItem) -> (b: Vec<u8>)
    requires
        opt_encodable::<Crafter>(item.model().crafter),
        opt_encodable::<PackedStringMap>(item.model().custom_data),
    ensures
        b@ == ser_single(version, item.model()),
{
    let mut out: Vec<u8> = Vec::new();
    out.push(version);
    item.write(&mut out);
    assert(out@ =~= ser_single(version, item.model()));
    out
}

impl SingleItem {
    /// Read a single item that fills all of `bytes`.
    pub fn parse(bytes: &[u8]) -> (r: Option<SingleItem>)
        ensures
            match r {
                Some(s) => parse_single(bytes@) == Some((s.version, s.item.model())),
                None => parse_single(bytes@) is None,
            },
    {
        if bytes.len() == 0 {
            return None;
        }
        let v = bytes[0];
        assert(bytes@.skip(1) =~= bytes@.skip(1));
        match CompactItem::read(bytes, 1, v as i32) {
            Some((item, p)) => {
                if p == bytes.len() {
                    Some(SingleItem { version: v, item })
                } else {
                    None
                }
            },
            None => None,
        }
    }

    /// The bytes of the single item.
    pub fn to_bytes(&self) -> (b: Vec<u8>)
        requires
            opt_encodable::<Crafter>(self.item.model().crafter),
            opt_encodable::<PackedStringMap>(self.item.model().custom_data),
        ensures
            b@ == ser_single(self.version, self.item.model()),
    {
        single_bytes(self.version, &self.item)
    }
}

/// A single item written at the current item-data version reads back as
/// itself.
pub proof fn lemma_single_roundtrip(m: CompactModel)
    requires
        item_encodable(m, INVENTORY_CURRENT),
    ensures
        parse_single(ser_single(INVENTORY_CURRENT as u8, m)) == Some((INVENTORY_CURRENT as u8, m)),
{
    let b = ser_single(INVENTORY_CURRENT as u8, m);
    lemma_item_roundtrip(m, INVENTORY_CURRENT, seq![]);
    assert(b.skip(1) =~= ser_item(m) + seq![]);
}

} // verus!
