//! Serialized inventories (`Inventory.Save` / `Inventory.Load`).
//!
//! An inventory is an `i32` item-data version followed by its items. Up to
//! version 107 each item is the verbose [`LegacyItem`] behind an `i32` count;
//! from version 108 the count is a `u16` and each item is the compact record
//! of [`crate::inventory`], naming the prefab by hash.
//!
//! Where they turn up: a container's `items` property (a base64 string up to
//! world version 39, a raw byte array from 40) and the player's own
//! inventory in a character file.

use vstd::prelude::*;
use base64::Engine;
use crate::hash::{spec_stable_hash, stable_hash};
use crate::inventory::{
    opt_encodable, opt_model, parse_item, parse_opt, read_opt, ser_item, ser_opt, write_opt,
    item_fits, string_fits, CompactItem, CompactModel, Crafter, PackedStringMap,
};
use crate::migrate::{dur_of, functional, result_of};
use crate::names::{display_of, NameTable};
use crate::primitives::{Bool, CsString, StringStringEntry, StringStringMap, Vec2i};
use crate::seqcodec::models;
use crate::versions::{
    has_cheated, spec_has_cheated, INVENTORY_COMPACT, INVENTORY_CRAFTER, INVENTORY_CURRENT,
    INVENTORY_CUSTOM_DATA, INVENTORY_PICKED_UP, INVENTORY_QUALITY, INVENTORY_VARIANT,
    INVENTORY_WORLD_LEVEL,
};
use crate::wire::Wire;

verus! {

// ---------------------------------------------------------------- the legacy item

/// The item record of versions up to 107 (`Inventory.LoadOld`). The fields
/// after `equipped` are there exactly when the version carries them.
pub struct LegacyItem {
    /// Drop prefab name, e.g. `SwordIron`. Empty for items missing a prefab.
    pub name: CsString,
    pub stack: i32,
    /// The `f32` durability as its bit pattern.
    pub durability: u32,
    pub grid_pos: Vec2i,
    pub equipped: Bool,
    pub quality: Option<i32>,
    pub variant: Option<i32>,
    pub crafter: Option<Crafter>,
    pub custom_data: Option<StringStringMap>,
    pub world_level: Option<i32>,
    pub picked_up: Option<Bool>,
    pub cheated: Option<Bool>,
}

/// A legacy item as plain values.
pub struct LegacyModel {
    pub name: Seq<char>,
    pub stack: i32,
    pub durability: u32,
    pub grid_pos: Vec2i,
    pub equipped: bool,
    pub quality: Option<i32>,
    pub variant: Option<i32>,
    pub crafter: Option<(i64, Seq<char>)>,
    pub custom_data: Option<Seq<(Seq<char>, Seq<char>)>>,
    pub world_level: Option<i32>,
    pub picked_up: Option<bool>,
    pub cheated: Option<bool>,
}

/// The fixed fields of a legacy item, in file order.
pub type LegacyHead = (CsString, (i32, (u32, (Vec2i, Bool))));

/// The optional fields of a legacy item, in file order.
pub struct LegacyTail {
    pub quality: Option<i32>,
    pub variant: Option<i32>,
    pub crafter: Option<(i64, Seq<char>)>,
    pub custom_data: Option<Seq<(Seq<char>, Seq<char>)>>,
    pub world_level: Option<i32>,
    pub picked_up: Option<bool>,
    pub cheated: Option<bool>,
}

impl LegacyItem {
    pub open spec fn model(&self) -> LegacyModel {
        LegacyModel {
            name: self.name.model(),
            stack: self.stack,
            durability: self.durability,
            grid_pos: self.grid_pos,
            equipped: self.equipped.0,
            quality: self.quality,
            variant: self.variant,
            crafter: opt_model(self.crafter),
            custom_data: opt_model(self.custom_data),
            world_level: self.world_level,
            picked_up: opt_model(self.picked_up),
            cheated: opt_model(self.cheated),
        }
    }
}

/// The head of a legacy item.
pub open spec fn legacy_head(m: LegacyModel) -> <LegacyHead as Wire>::Model {
    (m.name, (m.stack, (m.durability, (m.grid_pos, m.equipped))))
}

// The optional fields are specified as a chain, each part followed by the
// rest of it.

#[verifier::opaque]
pub open spec fn ser_lt7(m: LegacyModel) -> Seq<u8> {
    ser_opt::<Bool>(m.cheated)
}

#[verifier::opaque]
pub open spec fn ser_lt6(m: LegacyModel) -> Seq<u8> {
    ser_opt::<Bool>(m.picked_up) + ser_lt7(m)
}

#[verifier::opaque]
pub open spec fn ser_lt5(m: LegacyModel) -> Seq<u8> {
    ser_opt::<i32>(m.world_level) + ser_lt6(m)
}

#[verifier::opaque]
pub open spec fn ser_lt4(m: LegacyModel) -> Seq<u8> {
    ser_opt::<StringStringMap>(m.custom_data) + ser_lt5(m)
}

#[verifier::opaque]
pub open spec fn ser_lt3(m: LegacyModel) -> Seq<u8> {
    ser_opt::<Crafter>(m.crafter) + ser_lt4(m)
}

#[verifier::opaque]
pub open spec fn ser_lt2(m: LegacyModel) -> Seq<u8> {
    ser_opt::<i32>(m.variant) + ser_lt3(m)
}

/// The bytes of the optional fields that are there.
#[verifier::opaque]
pub open spec fn ser_legacy_tail(m: LegacyModel) -> Seq<u8> {
    ser_opt::<i32>(m.quality) + ser_lt2(m)
}

/// The bytes `Inventory.Save` wrote for a legacy item.
pub open spec fn ser_legacy(m: LegacyModel) -> Seq<u8> {
    <LegacyHead as Wire>::wire_ser(legacy_head(m)) + ser_legacy_tail(m)
}

/// Whether a legacy item can be written: its strings and counts fit.
pub open spec fn legacy_encodable(m: LegacyModel) -> bool {
    &&& <LegacyHead as Wire>::wire_encodable(legacy_head(m))
    &&& opt_encodable::<Crafter>(m.crafter)
    &&& opt_encodable::<StringStringMap>(m.custom_data)
}

/// No optional field.
pub open spec fn empty_tail() -> LegacyTail {
    LegacyTail {
        quality: None,
        variant: None,
        crafter: None,
        custom_data: None,
        world_level: None,
        picked_up: None,
        cheated: None,
    }
}

#[verifier::opaque]
pub open spec fn parse_lt7(b: Seq<u8>, version: i32) -> Option<(LegacyTail, int)> {
    match parse_opt::<Bool>(b, spec_has_cheated(version)) {
        None => None,
        Some((x, k)) => Some((LegacyTail { cheated: x, ..empty_tail() }, k)),
    }
}

#[verifier::opaque]
pub open spec fn parse_lt6(b: Seq<u8>, version: i32) -> Option<(LegacyTail, int)> {
    match parse_opt::<Bool>(b, version >= INVENTORY_PICKED_UP) {
        None => None,
        Some((x, k)) => match parse_lt7(b.skip(k), version) {
            None => None,
            Some((t, j)) => Some((LegacyTail { picked_up: x, ..t }, k + j)),
        },
    }
}

#[verifier::opaque]
pub open spec fn parse_lt5(b: Seq<u8>, version: i32) -> Option<(LegacyTail, int)> {
    match parse_opt::<i32>(b, version >= INVENTORY_WORLD_LEVEL) {
        None => None,
        Some((x, k)) => match parse_lt6(b.skip(k), version) {
            None => None,
            Some((t, j)) => Some((LegacyTail { world_level: x, ..t }, k + j)),
        },
    }
}

#[verifier::opaque]
pub open spec fn parse_lt4(b: Seq<u8>, version: i32) -> Option<(LegacyTail, int)> {
    match parse_opt::<StringStringMap>(b, version >= INVENTORY_CUSTOM_DATA) {
        None => None,
        Some((x, k)) => match parse_lt5(b.skip(k), version) {
            None => None,
            Some((t, j)) => Some((LegacyTail { custom_data: x, ..t }, k + j)),
        },
    }
}

#[verifier::opaque]
pub open spec fn parse_lt3(b: Seq<u8>, version: i32) -> Option<(LegacyTail, int)> {
    match parse_opt::<Crafter>(b, version >= INVENTORY_CRAFTER) {
        None => None,
        Some((x, k)) => match parse_lt4(b.skip(k), version) {
            None => None,
            Some((t, j)) => Some((LegacyTail { crafter: x, ..t }, k + j)),
        },
    }
}

#[verifier::opaque]
pub open spec fn parse_lt2(b: Seq<u8>, version: i32) -> Option<(LegacyTail, int)> {
    match parse_opt::<i32>(b, version >= INVENTORY_VARIANT) {
        None => None,
        Some((x, k)) => match parse_lt3(b.skip(k), version) {
            None => None,
            Some((t, j)) => Some((LegacyTail { variant: x, ..t }, k + j)),
        },
    }
}

/// The optional fields of a legacy item of item-data `version` off the
/// front of `b`: each is there when the version carries it.
#[verifier::opaque]
pub open spec fn parse_legacy_tail(b: Seq<u8>, version: i32) -> Option<(LegacyTail, int)> {
    match parse_opt::<i32>(b, version >= INVENTORY_QUALITY) {
        None => None,
        Some((x, k)) => match parse_lt2(b.skip(k), version) {
            None => None,
            Some((t, j)) => Some((LegacyTail { quality: x, ..t }, k + j)),
        },
    }
}

/// A legacy item of item-data `version` off the front of `b`.
pub open spec fn parse_legacy(b: Seq<u8>, version: i32) -> Option<(LegacyModel, int)> {
    match <LegacyHead as Wire>::wire_parse(b) {
        None => None,
        Some((h, k)) => match parse_legacy_tail(b.skip(k), version) {
            None => None,
            Some((t, j)) => Some(
                (
                    LegacyModel {
                        name: h.0,
                        stack: h.1.0,
                        durability: h.1.1.0,
                        grid_pos: h.1.1.1.0,
                        equipped: h.1.1.1.1,
                        quality: t.quality,
                        variant: t.variant,
                        crafter: t.crafter,
                        custom_data: t.custom_data,
                        world_level: t.world_level,
                        picked_up: t.picked_up,
                        cheated: t.cheated,
                    },
                    k + j,
                ),
            ),
        },
    }
}

/// The optional fields as read.
struct TailRead {
    quality: Option<i32>,
    variant: Option<i32>,
    crafter: Option<Crafter>,
    custom_data: Option<StringStringMap>,
    world_level: Option<i32>,
    picked_up: Option<Bool>,
    cheated: Option<Bool>,
}

impl TailRead {
    spec fn view_tail(&self) -> LegacyTail {
        LegacyTail {
            quality: self.quality,
            variant: self.variant,
            crafter: opt_model(self.crafter),
            custom_data: opt_model(self.custom_data),
            world_level: self.world_level,
            picked_up: opt_model(self.picked_up),
            cheated: opt_model(self.cheated),
        }
    }
}

/// The fields from `from` on agree.
spec fn tail_agrees(t: LegacyTail, a: LegacyTail, from: int) -> bool {
    &&& from <= 1 ==> t.quality == a.quality
    &&& from <= 2 ==> t.variant == a.variant
    &&& from <= 3 ==> t.crafter == a.crafter
    &&& from <= 4 ==> t.custom_data == a.custom_data
    &&& from <= 5 ==> t.world_level == a.world_level
    &&& from <= 6 ==> t.picked_up == a.picked_up
    &&& t.cheated == a.cheated
}

fn read_lt7(buf: &[u8], pos: usize, version: i32) -> (r: Option<(TailRead, usize)>)
    requires
        pos <= buf@.len(),
    ensures
        match r {
            Some((a, p)) => pos <= p <= buf@.len() && (parse_lt7(buf@.skip(pos as int), version) matches Some(
                (t, k),
            ) && k == p - pos && tail_agrees(t, a.view_tail(), 7)),
            None => parse_lt7(buf@.skip(pos as int), version) is None,
        },
{
    reveal(parse_lt7);
    match read_opt::<Bool>(buf, pos, has_cheated(version)) {
        None => None,
        Some((x, p)) => Some(
            (
                TailRead {
                    quality: None,
                    variant: None,
                    crafter: None,
                    custom_data: None,
                    world_level: None,
                    picked_up: None,
                    cheated: x,
                },
                p,
            ),
        ),
    }
}

fn read_lt6(buf: &[u8], pos: usize, version: i32) -> (r: Option<(TailRead, usize)>)
    requires
        pos <= buf@.len(),
    ensures
        match r {
            Some((a, p)) => pos <= p <= buf@.len() && (parse_lt6(buf@.skip(pos as int), version) matches Some(
                (t, k),
            ) && k == p - pos && tail_agrees(t, a.view_tail(), 6)),
            None => parse_lt6(buf@.skip(pos as int), version) is None,
        },
{
    reveal(parse_lt6);
    match read_opt::<Bool>(buf, pos, version >= INVENTORY_PICKED_UP) {
        None => None,
        Some((x, p)) => {
            assert(buf@.skip(pos as int).skip(p - pos) =~= buf@.skip(p as int));
            match read_lt7(buf, p, version) {
                None => None,
                Some((a, q)) => Some((TailRead { picked_up: x, ..a }, q)),
            }
        },
    }
}

fn read_lt5(buf: &[u8], pos: usize, version: i32) -> (r: Option<(TailRead, usize)>)
    requires
        pos <= buf@.len(),
    ensures
        match r {
            Some((a, p)) => pos <= p <= buf@.len() && (parse_lt5(buf@.skip(pos as int), version) matches Some(
                (t, k),
            ) && k == p - pos && tail_agrees(t, a.view_tail(), 5)),
            None => parse_lt5(buf@.skip(pos as int), version) is None,
        },
{
    reveal(parse_lt5);
    match read_opt::<i32>(buf, pos, version >= INVENTORY_WORLD_LEVEL) {
        None => None,
        Some((x, p)) => {
            assert(buf@.skip(pos as int).skip(p - pos) =~= buf@.skip(p as int));
            match read_lt6(buf, p, version) {
                None => None,
                Some((a, q)) => Some((TailRead { world_level: x, ..a }, q)),
            }
        },
    }
}

fn read_lt4(buf: &[u8], pos: usize, version: i32) -> (r: Option<(TailRead, usize)>)
    requires
        pos <= buf@.len(),
    ensures
        match r {
            Some((a, p)) => pos <= p <= buf@.len() && (parse_lt4(buf@.skip(pos as int), version) matches Some(
                (t, k),
            ) && k == p - pos && tail_agrees(t, a.view_tail(), 4)),
            None => parse_lt4(buf@.skip(pos as int), version) is None,
        },
{
    reveal(parse_lt4);
    match read_opt::<StringStringMap>(buf, pos, version >= INVENTORY_CUSTOM_DATA) {
        None => None,
        Some((x, p)) => {
            assert(buf@.skip(pos as int).skip(p - pos) =~= buf@.skip(p as int));
            match read_lt5(buf, p, version) {
                None => None,
                Some((a, q)) => Some((TailRead { custom_data: x, ..a }, q)),
            }
        },
    }
}

fn read_lt3(buf: &[u8], pos: usize, version: i32) -> (r: Option<(TailRead, usize)>)
    requires
        pos <= buf@.len(),
    ensures
        match r {
            Some((a, p)) => pos <= p <= buf@.len() && (parse_lt3(buf@.skip(pos as int), version) matches Some(
                (t, k),
            ) && k == p - pos && tail_agrees(t, a.view_tail(), 3)),
            None => parse_lt3(buf@.skip(pos as int), version) is None,
        },
{
    reveal(parse_lt3);
    match read_opt::<Crafter>(buf, pos, version >= INVENTORY_CRAFTER) {
        None => None,
        Some((x, p)) => {
            assert(buf@.skip(pos as int).skip(p - pos) =~= buf@.skip(p as int));
            match read_lt4(buf, p, version) {
                None => None,
                Some((a, q)) => Some((TailRead { crafter: x, ..a }, q)),
            }
        },
    }
}

fn read_lt2(buf: &[u8], pos: usize, version: i32) -> (r: Option<(TailRead, usize)>)
    requires
        pos <= buf@.len(),
    ensures
        match r {
            Some((a, p)) => pos <= p <= buf@.len() && (parse_lt2(buf@.skip(pos as int), version) matches Some(
                (t, k),
            ) && k == p - pos && tail_agrees(t, a.view_tail(), 2)),
            None => parse_lt2(buf@.skip(pos as int), version) is None,
        },
{
    reveal(parse_lt2);
    match read_opt::<i32>(buf, pos, version >= INVENTORY_VARIANT) {
        None => None,
        Some((x, p)) => {
            assert(buf@.skip(pos as int).skip(p - pos) =~= buf@.skip(p as int));
            match read_lt3(buf, p, version) {
                None => None,
                Some((a, q)) => Some((TailRead { variant: x, ..a }, q)),
            }
        },
    }
}

fn read_legacy_tail(buf: &[u8], pos: usize, version: i32) -> (r: Option<(TailRead, usize)>)
    requires
        pos <= buf@.len(),
    ensures
        match r {
            Some((a, p)) => pos <= p <= buf@.len() && parse_legacy_tail(buf@.skip(pos as int), version)
                == Some((a.view_tail(), p - pos)),
            None => parse_legacy_tail(buf@.skip(pos as int), version) is None,
        },
{
    reveal(parse_legacy_tail);
    match read_opt::<i32>(buf, pos, version >= INVENTORY_QUALITY) {
        None => None,
        Some((x, p)) => {
            assert(buf@.skip(pos as int).skip(p - pos) =~= buf@.skip(p as int));
            match read_lt2(buf, p, version) {
                None => None,
                Some((a, q)) => Some((TailRead { quality: x, ..a }, q)),
            }
        },
    }
}

#[verifier::spinoff_prover]
#[verifier::rlimit(80)]
fn write_legacy_tail(it: &LegacyItem, out: &mut Vec<u8>)
    requires
        legacy_encodable(it.model()),
    ensures
        final(out)@ == old(out)@ + ser_legacy_tail(it.model()),
{
    let ghost m = it.model();
    reveal(ser_legacy_tail);
    reveal(ser_lt2);
    reveal(ser_lt3);
    reveal(ser_lt4);
    reveal(ser_lt5);
    reveal(ser_lt6);
    reveal(ser_lt7);
    let ghost o0 = out@;
    write_opt(&it.quality, out);
    let ghost o1 = out@;
    write_opt(&it.variant, out);
    let ghost o2 = out@;
    write_opt(&it.crafter, out);
    let ghost o3 = out@;
    write_opt(&it.custom_data, out);
    let ghost o4 = out@;
    write_opt(&it.world_level, out);
    let ghost o5 = out@;
    write_opt(&it.picked_up, out);
    let ghost o6 = out@;
    write_opt(&it.cheated, out);
    assert(out@ =~= o6 + ser_lt7(m));
    assert(out@ =~= o5 + ser_lt6(m));
    assert(out@ =~= o4 + ser_lt5(m));
    assert(out@ =~= o3 + ser_lt4(m));
    assert(out@ =~= o2 + ser_lt3(m));
    assert(out@ =~= o1 + ser_lt2(m));
    assert(out@ =~= o0 + ser_legacy_tail(m));
}

impl LegacyItem {
    /// Read a legacy item of item-data `version` at `pos`.
    pub fn read(buf: &[u8], pos: usize, version: i32) -> (r: Option<(LegacyItem, usize)>)
        requires
            pos <= buf@.len(),
        ensures
            match r {
                Some((it, p)) => pos <= p <= buf@.len() && parse_legacy(buf@.skip(pos as int), version)
                    == Some((it.model(), p - pos)),
                None => parse_legacy(buf@.skip(pos as int), version) is None,
            },
    {
        let (h, p) = match <LegacyHead as Wire>::read(buf, pos) {
            Some(x) => x,
            None => {
                return None;
            },
        };
        assert(buf@.skip(pos as int).skip(p - pos) =~= buf@.skip(p as int));
        let (t, q) = match read_legacy_tail(buf, p, version) {
            Some(x) => x,
            None => {
                return None;
            },
        };
        let (name, (stack, (durability, (grid_pos, equipped)))) = h;
        let it = LegacyItem {
            name,
            stack,
            durability,
            grid_pos,
            equipped,
            quality: t.quality,
            variant: t.variant,
            crafter: t.crafter,
            custom_data: t.custom_data,
            world_level: t.world_level,
            picked_up: t.picked_up,
            cheated: t.cheated,
        };
        Some((it, q))
    }

    /// Write the item as `Inventory.Save` wrote it, with the optional fields
    /// that are there.
    pub fn write(&self, out: &mut Vec<u8>)
        requires
            legacy_encodable(self.model()),
        ensures
            final(out)@ == old(out)@ + ser_legacy(self.model()),
    {
        let ghost m = self.model();
        let ghost o0 = out@;
        self.name.write(out);
        self.stack.write(out);
        self.durability.write(out);
        self.grid_pos.write(out);
        self.equipped.write(out);
        assert(out@ =~= o0 + <LegacyHead as Wire>::wire_ser(legacy_head(m)));
        let ghost o1 = out@;
        write_legacy_tail(self, out);
        assert(out@ =~= o0 + ser_legacy(m));
    }
}


// ---------------------------------------------------------------- copying

fn copy_entries(v: &Vec<StringStringEntry>) -> (r: Vec<StringStringEntry>)
    ensures
        models(r@) == models(v@),
{
    let mut r: Vec<StringStringEntry> = Vec::new();
    let mut i: usize = 0;
    while i < v.len()
        invariant
            i <= v@.len(),
            r@.len() == i,
            forall|j: int| 0 <= j < i ==> #[trigger] r@[j].model() == v@[j].model(),
        decreases v@.len() - i,
    {
        let e = StringStringEntry { key: v[i].key.clone(), value: v[i].value.clone() };
        r.push(e);
        i = i + 1;
    }
    assert(models(r@) =~= models(v@));
    r
}

impl CompactItem {
    /// A copy of the item.
    pub fn duplicate(&self) -> (r: CompactItem)
        ensures
            r.model() == self.model(),
    {
        CompactItem {
            durability_hundredths: self.durability_hundredths,
            grid_x: self.grid_x,
            grid_y: self.grid_y,
            world_level: self.world_level,
            picked_up: self.picked_up,
            equipped: self.equipped,
            quality: self.quality,
            stack: self.stack,
            variant: self.variant,
            crafter: match &self.crafter {
                Some(c) => Some(c.duplicate()),
                None => None,
            },
            prefab_hash: self.prefab_hash,
            custom_data: match &self.custom_data {
                Some(d) => Some(PackedStringMap { entries: copy_entries(&d.entries) }),
                None => None,
            },
            cheated_flags: self.cheated_flags,
        }
    }
}

// ---------------------------------------------------------------- from legacy to compact

/// Whether a compact item can be written: its crafter name and custom data
/// fit their length prefixes.
pub open spec fn compact_encodable(m: CompactModel) -> bool {
    opt_encodable::<Crafter>(m.crafter) && opt_encodable::<PackedStringMap>(m.custom_data)
}

/// `Inventory.LoadOld` + `AddItem` + `ItemData.Save` for a legacy item, with
/// the durability in hundredths given by `dur` of its bit pattern: a field
/// the game would not write (a default value) is left out, and the crafter
/// name goes with the id.
pub open spec fn legacy_to_compact(l: LegacyModel, dur: spec_fn(u32) -> i32) -> CompactModel {
    let quality = match l.quality {
        Some(q) => q,
        None => 1,
    };
    CompactModel {
        durability_hundredths: dur(l.durability),
        grid_x: l.grid_pos.x as u8,
        grid_y: l.grid_pos.y as u8,
        world_level: match l.world_level {
            Some(w) => w as u8,
            None => 0,
        },
        picked_up: l.picked_up == Some(true),
        equipped: l.equipped,
        quality: if quality as u16 != 1 {
            Some(quality as u16)
        } else {
            None
        },
        stack: if l.stack as u16 != 1 {
            Some(l.stack as u16)
        } else {
            None
        },
        variant: match l.variant {
            Some(v) => if v != 0 {
                Some(v)
            } else {
                None
            },
            None => None,
        },
        crafter: match l.crafter {
            Some(c) => if c.0 != 0 {
                Some(c)
            } else {
                None
            },
            None => None,
        },
        prefab_hash: Some(spec_stable_hash(l.name)),
        custom_data: match l.custom_data {
            Some(d) => if d.len() > 0 {
                Some(d)
            } else {
                None
            },
            None => None,
        },
        cheated_flags: Some(
            if l.cheated == Some(true) {
                1u8
            } else {
                0u8
            },
        ),
    }
}

impl LegacyItem {
    /// The item as the compact record the game saves after loading it, with
    /// `hundredths` turning the durability's bit pattern into hundredths
    /// (`(int)(m_durability * 100f)`).
    pub fn to_compact<F: Fn(u32) -> i32>(&self, hundredths: &F) -> (c: CompactItem)
        requires
            call_requires(*hundredths, (self.durability,)),
        ensures
            call_ensures(*hundredths, (self.durability,), c.durability_hundredths),
            c.model() == legacy_to_compact(self.model(), |b: u32| c.durability_hundredths),
    {
        let quality = match self.quality {
            Some(q) => q,
            None => 1,
        };
        let q16 = quality as u16;
        let s16 = self.stack as u16;
        let d = hundredths(self.durability);
        CompactItem {
            durability_hundredths: d,
            grid_x: self.grid_pos.x as u8,
            grid_y: self.grid_pos.y as u8,
            world_level: match self.world_level {
                Some(w) => w as u8,
                None => 0,
            },
            picked_up: match &self.picked_up {
                Some(b) => b.0,
                None => false,
            },
            equipped: self.equipped.0,
            quality: if q16 != 1 {
                Some(q16)
            } else {
                None
            },
            stack: if s16 != 1 {
                Some(s16)
            } else {
                None
            },
            variant: match self.variant {
                Some(v) => if v != 0 {
                    Some(v)
                } else {
                    None
                },
                None => None,
            },
            crafter: match &self.crafter {
                Some(c) => if c.id != 0 {
                    Some(c.duplicate())
                } else {
                    None
                },
                None => None,
            },
            prefab_hash: Some(stable_hash(self.name.as_str())),
            custom_data: match &self.custom_data {
                Some(m) => if m.items.len() > 0 {
                    Some(PackedStringMap { entries: copy_entries(&m.items) })
                } else {
                    None
                },
                None => None,
            },
            cheated_flags: Some(
                match &self.cheated {
                    Some(b) => if b.0 {
                        1u8
                    } else {
                        0u8
                    },
                    None => 0u8,
                },
            ),
        }
    }
}

// ---------------------------------------------------------------- inventories

/// One item in whichever record its inventory's version uses.
pub enum Item {
    Legacy(LegacyItem),
    Compact(CompactItem),
}

/// An item as plain values.
pub enum ItemModel {
    Legacy(LegacyModel),
    Compact(CompactModel),
}

impl Item {
    pub open spec fn model(&self) -> ItemModel {
        match self {
            Item::Legacy(l) => ItemModel::Legacy(l.model()),
            Item::Compact(c) => ItemModel::Compact(c.model()),
        }
    }
}

/// The models of a run of items.
pub open spec fn item_models(s: Seq<Item>) -> Seq<ItemModel> {
    Seq::new(s.len(), |i: int| s[i].model())
}

pub struct Inventory {
    pub version: i32,
    pub items: Vec<Item>,
}

/// An inventory as plain values.
pub struct InventoryModel {
    pub version: i32,
    pub items: Seq<ItemModel>,
}

impl Inventory {
    pub open spec fn model(&self) -> InventoryModel {
        InventoryModel { version: self.version, items: item_models(self.items@) }
    }
}

/// Why an inventory package could not be read or written.
#[derive(Debug)]
pub enum PackageError {
    /// The items string is not valid base64.
    Base64,
    /// The bytes do not hold an inventory.
    Malformed,
    /// An inventory was read but bytes are left after it.
    TrailingBytes { count: usize },
    /// A compact inventory holds more items than its 16-bit count can say.
    TooManyItems { count: usize },
    /// An item's record is not the one the inventory's version uses.
    RecordMismatch { version: i32 },
    /// A string or count is too long for its length prefix.
    ValueTooLarge,
}

/// One item record of item-data `version` off the front of `b`.
pub open spec fn parse_record(b: Seq<u8>, version: i32) -> Option<(ItemModel, int)> {
    if version >= INVENTORY_COMPACT {
        match parse_item(b, version) {
            Some((m, k)) => Some((ItemModel::Compact(m), k)),
            None => None,
        }
    } else {
        match parse_legacy(b, version) {
            Some((m, k)) => Some((ItemModel::Legacy(m), k)),
            None => None,
        }
    }
}

/// `n` item records of item-data `version` off the front of `b`.
pub open spec fn parse_records(b: Seq<u8>, n: nat, version: i32) -> Option<(Seq<ItemModel>, int)>
    decreases n,
{
    if n == 0 {
        Some((seq![], 0))
    } else {
        match parse_records(b, (n - 1) as nat, version) {
            None => None,
            Some((ms, k)) => match parse_record(b.skip(k), version) {
                None => None,
                Some((m, j)) => Some((ms.push(m), k + j)),
            },
        }
    }
}

/// An inventory off the front of `b`: the version, then a `u16` count of
/// compact items from version 108 or an `i32` count of legacy items before
/// (a negative count reads as none).
pub open spec fn parse_inventory(b: Seq<u8>) -> Option<(InventoryModel, int)> {
    match <i32 as Wire>::wire_parse(b) {
        None => None,
        Some((v, k)) => {
            let count = if v >= INVENTORY_COMPACT {
                match <u16 as Wire>::wire_parse(b.skip(k)) {
                    Some((c, j)) => Some((c as nat, j)),
                    None => None,
                }
            } else {
                match <i32 as Wire>::wire_parse(b.skip(k)) {
                    Some((c, j)) => Some(
                        (
                            if c < 0 {
                                0nat
                            } else {
                                c as nat
                            },
                            j,
                        ),
                    ),
                    None => None,
                }
            };
            match count {
                None => None,
                Some((n, j)) => match parse_records(b.skip(k + j), n, v) {
                    None => None,
                    Some((ms, i)) => Some((InventoryModel { version: v, items: ms }, k + j + i)),
                },
            }
        },
    }
}

/// The bytes of one item record.
pub open spec fn ser_record(m: ItemModel) -> Seq<u8> {
    match m {
        ItemModel::Legacy(l) => ser_legacy(l),
        ItemModel::Compact(c) => ser_item(c),
    }
}

/// The bytes of a run of item records.
pub open spec fn ser_records(ms: Seq<ItemModel>) -> Seq<u8>
    decreases ms.len(),
{
    if ms.len() == 0 {
        seq![]
    } else {
        ser_records(ms.drop_last()) + ser_record(ms.last())
    }
}

/// The bytes `Inventory.Save` writes for `m`.
pub open spec fn ser_inventory(m: InventoryModel) -> Seq<u8> {
    <i32 as Wire>::wire_ser(m.version) + (if m.version >= INVENTORY_COMPACT {
        <u16 as Wire>::wire_ser(m.items.len() as u16)
    } else {
        <i32 as Wire>::wire_ser(m.items.len() as i32)
    }) + ser_records(m.items)
}

/// Whether an item's record is the one an inventory of version `compact`
/// uses.
pub open spec fn record_matches(m: ItemModel, compact: bool) -> bool {
    match m {
        ItemModel::Legacy(_) => !compact,
        ItemModel::Compact(_) => compact,
    }
}

/// Whether an item's strings and counts fit their encodings.
pub open spec fn record_encodable(m: ItemModel) -> bool {
    match m {
        ItemModel::Legacy(l) => legacy_encodable(l),
        ItemModel::Compact(c) => compact_encodable(c),
    }
}

/// Whether `m` can be written: a compact inventory's count fits 16 bits,
/// and every item has the record the version uses and fits its encoding.
pub open spec fn package_writable(m: InventoryModel) -> bool {
    &&& m.version >= INVENTORY_COMPACT ==> m.items.len() <= 0xFFFF
    &&& forall|i: int|
        0 <= i < m.items.len() ==> record_matches(#[trigger] m.items[i], m.version >= INVENTORY_COMPACT)
    &&& forall|i: int| 0 <= i < m.items.len() ==> record_encodable(#[trigger] m.items[i])
}

fn read_record(buf: &[u8], pos: usize, version: i32) -> (r: Option<(Item, usize)>)
    requires
        pos <= buf@.len(),
    ensures
        match r {
            Some((it, p)) => pos <= p <= buf@.len() && parse_record(buf@.skip(pos as int), version) == Some(
                (it.model(), p - pos),
            ),
            None => parse_record(buf@.skip(pos as int), version) is None,
        },
{
    if version >= INVENTORY_COMPACT {
        match CompactItem::read(buf, pos, version) {
            Some((c, p)) => Some((Item::Compact(c), p)),
            None => None,
        }
    } else {
        match LegacyItem::read(buf, pos, version) {
            Some((l, p)) => Some((Item::Legacy(l), p)),
            None => None,
        }
    }
}

proof fn lemma_records_none(b: Seq<u8>, m: nat, n: nat, version: i32)
    requires
        parse_records(b, m, version) is None,
        m <= n,
    ensures
        parse_records(b, n, version) is None,
    decreases n - m,
{
    if m < n {
        lemma_records_none(b, m + 1, n, version);
    }
}

fn read_records(buf: &[u8], pos: usize, n: usize, version: i32) -> (r: Option<(Vec<Item>, usize)>)
    requires
        pos <= buf@.len(),
    ensures
        match r {
            Some((v, p)) => pos <= p <= buf@.len() && parse_records(buf@.skip(pos as int), n as nat, version)
                == Some((item_models(v@), p - pos)),
            None => parse_records(buf@.skip(pos as int), n as nat, version) is None,
        },
{
    let ghost b = buf@.skip(pos as int);
    let mut items: Vec<Item> = Vec::new();
    let mut p = pos;
    let mut i: usize = 0;
    assert(item_models(items@) =~= seq![]);
    while i < n
        invariant
            i <= n,
            pos <= p <= buf@.len(),
            b == buf@.skip(pos as int),
            parse_records(b, i as nat, version) == Some((item_models(items@), p - pos)),
        decreases n - i,
    {
        assert(b.skip(p - pos) =~= buf@.skip(p as int));
        let ghost olds = items@;
        match read_record(buf, p, version) {
            Some((it, q)) => {
                let ghost im = it.model();
                items.push(it);
                p = q;
                i = i + 1;
                assert(item_models(items@) =~= item_models(olds).push(im));
            },
            None => {
                proof {
                    lemma_records_none(b, (i + 1) as nat, n as nat, version);
                }
                return None;
            },
        }
    }
    Some((items, p))
}


fn write_record(it: &Item, out: &mut Vec<u8>)
    requires
        record_encodable(it.model()),
    ensures
        final(out)@ == old(out)@ + ser_record(it.model()),
{
    match it {
        Item::Legacy(l) => l.write(out),
        Item::Compact(c) => c.write(out),
    }
}

/// Whether a string map fits its encoding: its count fits an `i32` and
/// every string its length prefix.
fn string_map_fits(m: &StringStringMap) -> (r: bool)
    ensures
        r == <StringStringMap as Wire>::wire_encodable(m.model()),
{
    let n = m.items.len();
    if n > 0x7FFF_FFFF {
        return false;
    }
    let mut i: usize = 0;
    while i < n
        invariant
            i <= n,
            n == m.items@.len(),
            forall|j: int| 0 <= j < i ==> #[trigger] <StringStringEntry as Wire>::wire_encodable(m.model()[j]),
        decreases n - i,
    {
        assert(m.model()[i as int] == m.items@[i as int].model());
        if !string_fits(&m.items[i].key) || !string_fits(&m.items[i].value) {
            return false;
        }
        i = i + 1;
    }
    true
}

fn record_fits(it: &Item) -> (r: bool)
    ensures
        r == record_encodable(it.model()),
{
    match it {
        Item::Legacy(l) => {
            let name = string_fits(&l.name);
            let crafter = match &l.crafter {
                Some(c) => string_fits(&c.name),
                None => true,
            };
            let custom = match &l.custom_data {
                Some(m) => string_map_fits(m),
                None => true,
            };
            name && crafter && custom
        },
        Item::Compact(c) => item_fits(c),
    }
}

/// What reading `b` as a whole inventory package gives: the inventory when
/// it fills all of `b`, the error otherwise.
pub open spec fn parsed_as(b: Seq<u8>, r: Result<Inventory, PackageError>) -> bool {
    match parse_inventory(b) {
        None => r matches Err(PackageError::Malformed),
        Some((m, k)) => if k == b.len() {
            r matches Ok(inv) && inv.model() == m
        } else {
            r matches Err(PackageError::TrailingBytes { count }) && count == b.len() - k
        },
    }
}

/// The items kept by re-encoding in the compact form, durabilities in
/// hundredths given by `dur`: compact items as they are, legacy items
/// converted, and legacy items with no prefab name dropped.
pub open spec fn compacted(ms: Seq<ItemModel>, dur: spec_fn(u32) -> i32) -> Seq<ItemModel>
    decreases ms.len(),
{
    if ms.len() == 0 {
        seq![]
    } else {
        let rest = compacted(ms.drop_last(), dur);
        match ms.last() {
            ItemModel::Compact(c) => rest.push(ItemModel::Compact(c)),
            ItemModel::Legacy(l) => if l.name.len() == 0 {
                rest
            } else {
                rest.push(ItemModel::Compact(legacy_to_compact(l, dur)))
            },
        }
    }
}

/// The name of what the standard base64 engine decodes `text` to: `None`
/// when it is not valid padded base64.
pub uninterp spec fn base64_decoded(text: Seq<char>) -> Option<Seq<u8>>;

/// `base64::engine::general_purpose::STANDARD.decode` on the UTF-8 bytes of
/// `text`: its result is what [`base64_decoded`] names, `None` for a decode
/// error.
#[verifier::external_body]
fn decode_base64(text: &str) -> (r: Option<Vec<u8>>)
    ensures
        match r {
            Some(v) => base64_decoded(text@) == Some(v@),
            None => base64_decoded(text@) is None,
        },
{
    match base64::engine::general_purpose::STANDARD.decode(text) {
        Ok(v) => Some(v),
        Err(_) => None,
    }
}

impl Inventory {
    /// A raw inventory package: a container's `items` byte array from world
    /// version 40, or the player's inventory inside a character file.
    pub fn parse(bytes: &[u8]) -> (r: Result<Inventory, PackageError>)
        ensures
            parsed_as(bytes@, r),
    {
        let (version, p1) = match <i32 as Wire>::read(bytes, 0) {
            Some(x) => x,
            None => {
                return Err(PackageError::Malformed);
            },
        };
        assert(bytes@.skip(0) =~= bytes@);
        assert(bytes@.skip(p1 as int) =~= bytes@.skip(p1 as int));
        let (n, p2) = if version >= INVENTORY_COMPACT {
            match <u16 as Wire>::read(bytes, p1) {
                Some((c, p)) => (c as usize, p),
                None => {
                    return Err(PackageError::Malformed);
                },
            }
        } else {
            match <i32 as Wire>::read(bytes, p1) {
                Some((c, p)) => (
                    if c < 0 {
                        0usize
                    } else {
                        c as usize
                    },
                    p,
                ),
                None => {
                    return Err(PackageError::Malformed);
                },
            }
        };
        assert(bytes@.skip(p2 as int) =~= bytes@.skip(p1 as int + (p2 - p1)));
        let (items, p3) = match read_records(bytes, p2, n, version) {
            Some(x) => x,
            None => {
                return Err(PackageError::Malformed);
            },
        };
        if p3 != bytes.len() {
            return Err(PackageError::TrailingBytes { count: bytes.len() - p3 });
        }
        Ok(Inventory { version, items })
    }

    /// A container's `items` string, as stored up to world version 39.
    pub fn from_base64(text: &str) -> (r: Result<Inventory, PackageError>)
        ensures
            match base64_decoded(text@) {
                None => r matches Err(PackageError::Base64),
                Some(b) => parsed_as(b, r),
            },
    {
        match decode_base64(text) {
            None => Err(PackageError::Base64),
            Some(bytes) => Inventory::parse(bytes.as_slice()),
        }
    }

    /// The bytes of the inventory package.
    pub fn to_bytes(&self) -> (r: Result<Vec<u8>, PackageError>)
        ensures
            match r {
                Ok(b) => package_writable(self.model()) && b@ == ser_inventory(self.model()),
                Err(PackageError::TooManyItems { count }) => self.version >= INVENTORY_COMPACT
                    && self.items@.len() > 0xFFFF && count == self.items@.len(),
                Err(PackageError::RecordMismatch { version }) => !(self.version >= INVENTORY_COMPACT
                    && self.items@.len() > 0xFFFF) && version == self.version && exists|i: int|
                    0 <= i < self.items@.len() && !record_matches(
                        #[trigger] self.model().items[i],
                        self.version >= INVENTORY_COMPACT,
                    ),
                Err(PackageError::ValueTooLarge) => !(self.version >= INVENTORY_COMPACT
                    && self.items@.len() > 0xFFFF) && (forall|i: int|
                    0 <= i < self.items@.len() ==> record_matches(
                        #[trigger] self.model().items[i],
                        self.version >= INVENTORY_COMPACT,
                    )) && exists|i: int|
                    0 <= i < self.items@.len() && !record_encodable(#[trigger] self.model().items[i]),
                Err(_) => false,
            },
    {
        let ghost m = self.model();
        let compact = self.version >= INVENTORY_COMPACT;
        let n = self.items.len();
        if compact && n > 0xFFFF {
            return Err(PackageError::TooManyItems { count: n });
        }
        let mut i: usize = 0;
        while i < n
            invariant
                i <= n,
                n == self.items@.len(),
                m == self.model(),
                compact == (self.version >= INVENTORY_COMPACT),
                !(compact && n > 0xFFFF),
                forall|j: int| 0 <= j < i ==> record_matches(#[trigger] m.items[j], compact),
            decreases n - i,
        {
            let ok = match &self.items[i] {
                Item::Legacy(_) => !compact,
                Item::Compact(_) => compact,
            };
            assert(m.items[i as int] == self.items@[i as int].model());
            if !ok {
                assert(!record_matches(self.model().items[i as int], compact));
                return Err(PackageError::RecordMismatch { version: self.version });
            }
            i = i + 1;
        }
        let mut i: usize = 0;
        while i < n
            invariant
                i <= n,
                n == self.items@.len(),
                m == self.model(),
                forall|j: int| 0 <= j < i ==> record_encodable(#[trigger] m.items[j]),
                forall|j: int| 0 <= j < n ==> record_matches(#[trigger] m.items[j], compact),
                compact == (self.version >= INVENTORY_COMPACT),
                !(compact && n > 0xFFFF),
            decreases n - i,
        {
            assert(m.items[i as int] == self.items@[i as int].model());
            if !record_fits(&self.items[i]) {
                assert(!record_encodable(self.model().items[i as int]));
                return Err(PackageError::ValueTooLarge);
            }
            i = i + 1;
        }
        let mut out: Vec<u8> = Vec::new();
        self.version.write(&mut out);
        if compact {
            (n as u16).write(&mut out);
        } else {
            (#[verifier::truncate] (n as i32)).write(&mut out);
        }
        let ghost head = out@;
        let mut i: usize = 0;
        while i < n
            invariant
                i <= n,
                n == self.items@.len(),
                m == self.model(),
                forall|j: int| 0 <= j < n ==> record_encodable(#[trigger] m.items[j]),
                out@ == head + ser_records(m.items.take(i as int)),
            decreases n - i,
        {
            assert(m.items[i as int] == self.items@[i as int].model());
            write_record(&self.items[i], &mut out);
            proof {
                assert(m.items.take(i + 1).drop_last() =~= m.items.take(i as int));
                assert(m.items.take(i + 1).last() == m.items[i as int]);
            }
            i = i + 1;
            assert(out@ =~= head + ser_records(m.items.take(i as int)));
        }
        assert(m.items.take(n as int) =~= m.items);
        assert(out@ =~= ser_inventory(m));
        Ok(out)
    }

    /// Re-encode in the current compact form, as `ZDOMan.ConvertInventories`
    /// does when it loads a pre-1.0 world: every item is loaded into an
    /// `ItemData` and saved again. Items with no prefab name are dropped,
    /// because `Inventory.LoadOld` never adds them. `hundredths` turns a
    /// durability's bit pattern into hundredths.
    pub fn to_compact<F: Fn(u32) -> i32>(&self, hundredths: &F) -> (r: Inventory)
        requires
            forall|b: u32| call_requires(*hundredths, (b,)),
            functional(*hundredths),
        ensures
            r.version == INVENTORY_CURRENT,
            r.model().items == compacted(self.model().items, dur_of(*hundredths)),
    {
        let ghost m = self.model();
        let ghost dur = dur_of(*hundredths);
        let mut items: Vec<Item> = Vec::new();
        let mut i: usize = 0;
        while i < self.items.len()
            invariant
                i <= self.items@.len(),
                m == self.model(),
                dur == dur_of(*hundredths),
                forall|b: u32| call_requires(*hundredths, (b,)),
                functional(*hundredths),
                item_models(items@) == compacted(m.items.take(i as int), dur),
            decreases self.items@.len() - i,
        {
            assert(m.items[i as int] == self.items@[i as int].model());
            assert(m.items.take(i + 1).drop_last() =~= m.items.take(i as int));
            let ghost olds = items@;
            match &self.items[i] {
                Item::Compact(c) => {
                    let d = c.duplicate();
                    let ghost dm = d.model();
                    items.push(Item::Compact(d));
                    assert(item_models(items@) =~= item_models(olds).push(ItemModel::Compact(dm)));
                },
                Item::Legacy(l) => {
                    if l.name.as_str().is_empty() {
                        assert(l.model().name.len() == 0);
                    } else {
                        let c = l.to_compact(hundredths);
                        proof {
                            let b = l.durability;
                            assert(call_ensures(*hundredths, (b,), result_of(*hundredths, b)));
                            assert(dur(b) == c.durability_hundredths);
                            assert(c.model() == legacy_to_compact(l.model(), dur));
                        }
                        let ghost cm = c.model();
                        items.push(Item::Compact(c));
                        assert(item_models(items@) =~= item_models(olds).push(ItemModel::Compact(cm)));
                    }
                },
            }
            i = i + 1;
        }
        assert(m.items.take(i as int) =~= m.items);
        Inventory { version: INVENTORY_CURRENT, items }
    }
}

impl Item {
    /// The prefab name, resolved through `names` when the record stores a
    /// hash. Empty for an item with no prefab.
    pub fn name(&self, names: &NameTable) -> (r: String)
        ensures
            r@ == match self.model() {
                ItemModel::Legacy(l) => l.name,
                ItemModel::Compact(c) => match c.prefab_hash {
                    Some(h) => display_of(names@, h),
                    None => seq![],
                },
            },
    {
        match self {
            Item::Legacy(l) => String::from_str(l.name.as_str()),
            Item::Compact(c) => match c.prefab_hash {
                Some(h) => names.display(h),
                None => String::new(),
            },
        }
    }

    /// The prefab hash, whichever way the record names it.
    pub fn prefab_hash(&self) -> (r: Option<i32>)
        ensures
            r == match self.model() {
                ItemModel::Legacy(l) => if l.name.len() == 0 {
                    None
                } else {
                    Some(spec_stable_hash(l.name))
                },
                ItemModel::Compact(c) => c.prefab_hash,
            },
    {
        match self {
            Item::Legacy(l) => if l.name.as_str().is_empty() {
                None
            } else {
                Some(stable_hash(l.name.as_str()))
            },
            Item::Compact(c) => c.prefab_hash,
        }
    }

    pub fn stack(&self) -> (r: i32)
        ensures
            r == match self.model() {
                ItemModel::Legacy(l) => l.stack,
                ItemModel::Compact(c) => match c.stack {
                    Some(s) => s as i32,
                    None => 1,
                },
            },
    {
        match self {
            Item::Legacy(l) => l.stack,
            Item::Compact(c) => match c.stack {
                Some(s) => s as i32,
                None => 1,
            },
        }
    }

    pub fn quality(&self) -> (r: i32)
        ensures
            r == match self.model() {
                ItemModel::Legacy(l) => match l.quality {
                    Some(q) => q,
                    None => 1,
                },
                ItemModel::Compact(c) => match c.quality {
                    Some(q) => q as i32,
                    None => 1,
                },
            },
    {
        match self {
            Item::Legacy(l) => match l.quality {
                Some(q) => q,
                None => 1,
            },
            Item::Compact(c) => match c.quality {
                Some(q) => q as i32,
                None => 1,
            },
        }
    }

    pub fn equipped(&self) -> (r: bool)
        ensures
            r == match self.model() {
                ItemModel::Legacy(l) => l.equipped,
                ItemModel::Compact(c) => c.equipped,
            },
    {
        match self {
            Item::Legacy(l) => l.equipped.0,
            Item::Compact(c) => c.equipped,
        }
    }

    /// The crafter's name; empty when the item has no crafter.
    pub fn crafter_name(&self) -> (r: &str)
        ensures
            r@ == match self.model() {
                ItemModel::Legacy(l) => match l.crafter {
                    Some(c) => c.1,
                    None => seq![],
                },
                ItemModel::Compact(c) => match c.crafter {
                    Some(c) => c.1,
                    None => seq![],
                },
            },
    {
        let crafter = match self {
            Item::Legacy(l) => &l.crafter,
            Item::Compact(c) => &c.crafter,
        };
        match crafter {
            Some(c) => c.name.as_str(),
            None => {
                proof {
                    reveal_strlit("");
                }
                ""
            },
        }
    }
}

} // verus!
