//! Repairs for damage the game's own migrations leave behind.
//!
//! When game 1.0.0 through 1.0.11 loads a world saved by 0.221 or earlier,
//! `ZDOMan.ConvertInventories` folds every loose item's separate keys into one
//! `itemData` blob, but only the unindexed keys. An armor stand keeps its
//! armor in slots, stored as `<n>_durability`, `<n>_quality`, `<n>_crafterID`
//! and so on; those are left behind, and from then on `ArmorStand` reads only
//! `<n>_itemData`, which the conversion never wrote: taking the armor down
//! hands back a piece with default durability, quality 1 and no crafter.
//!
//! [`restore_armor_stands`] puts the blobs back from the world as it was
//! before the game converted it, matching stands by prefab and position and
//! slots by the item they hold. Slots past the sixth come out of any
//! conversion still naming their item with a string the stand cannot read;
//! those keys are hashed here too.

use vstd::prelude::*;
use vstd::hash_map::HashMapWithView;
use crate::hash::{spec_stable_hash, stable_hash};
use crate::inventory::{item_fits, CompactItem, CompactModel};
use crate::migrate::{
    dur_of, functional, hash_prefab_string, hashed_prefab, item_at, item_from_keys, key_of,
    prefixed_key, result_of, slot_prefix, slot_prefix_string, storable, store_item, stored_item,
    ITEM_SLOTS,
};
use crate::names::{display_of, NameTable};
use crate::zdo::{first_value, has_key_in, Position, Zdo, ZdoModel};

verus! {

broadcast use vstd::std_specs::hash::group_hash_axioms;

// ---------------------------------------------------------------- places

/// The highest set bit of `a`, for `a` from 1 to 2^15.
pub open spec fn spec_top_bit(a: u32) -> u32 {
    if a >= 0x8000 {
        15
    } else if a >= 0x4000 {
        14
    } else if a >= 0x2000 {
        13
    } else if a >= 0x1000 {
        12
    } else if a >= 0x800 {
        11
    } else if a >= 0x400 {
        10
    } else if a >= 0x200 {
        9
    } else if a >= 0x100 {
        8
    } else if a >= 0x80 {
        7
    } else if a >= 0x40 {
        6
    } else if a >= 0x20 {
        5
    } else if a >= 0x10 {
        4
    } else if a >= 0x8 {
        3
    } else if a >= 0x4 {
        2
    } else if a >= 0x2 {
        1
    } else {
        0
    }
}

fn top_bit(a: u32) -> (r: u32)
    ensures
        r == spec_top_bit(a),
{
    if a >= 0x8000 {
        15
    } else if a >= 0x4000 {
        14
    } else if a >= 0x2000 {
        13
    } else if a >= 0x1000 {
        12
    } else if a >= 0x800 {
        11
    } else if a >= 0x400 {
        10
    } else if a >= 0x200 {
        9
    } else if a >= 0x100 {
        8
    } else if a >= 0x80 {
        7
    } else if a >= 0x40 {
        6
    } else if a >= 0x20 {
        5
    } else if a >= 0x10 {
        4
    } else if a >= 0x8 {
        3
    } else if a >= 0x4 {
        2
    } else if a >= 0x2 {
        1
    } else {
        0
    }
}

/// The IEEE-754 single-precision bit pattern of the whole number `n`: sign,
/// biased exponent of the top bit, and the bits below it as the fraction.
#[verifier::opaque]
pub open spec fn whole_float_bits(n: i16) -> u32 {
    if n == 0 {
        0
    } else {
        let a: u32 = if n < 0 {
            (-(n as int)) as u32
        } else {
            n as u32
        };
        let e = spec_top_bit(a);
        let sign: u32 = if n < 0 {
            0x8000_0000
        } else {
            0
        };
        sign | (((127 + e) as u32) << 23u32) | (((a - (1u32 << e)) as u32) << ((23 - e) as u32))
    }
}

proof fn lemma_top_bit(a: u32)
    requires
        1 <= a <= 0x8000,
    ensures
        spec_top_bit(a) <= 15,
        (1u32 << spec_top_bit(a)) <= a,
{
    let e = spec_top_bit(a);
    assert(e <= 15);
    assert(a >= 0x8000 ==> (1u32 << 15u32) == 0x8000) by (bit_vector);
    assert(a >= 0x4000 ==> (1u32 << 14u32) == 0x4000) by (bit_vector);
    assert((1u32 << 13u32) == 0x2000) by (bit_vector);
    assert((1u32 << 12u32) == 0x1000) by (bit_vector);
    assert((1u32 << 11u32) == 0x800) by (bit_vector);
    assert((1u32 << 10u32) == 0x400) by (bit_vector);
    assert((1u32 << 9u32) == 0x200) by (bit_vector);
    assert((1u32 << 8u32) == 0x100) by (bit_vector);
    assert((1u32 << 7u32) == 0x80) by (bit_vector);
    assert((1u32 << 6u32) == 0x40) by (bit_vector);
    assert((1u32 << 5u32) == 0x20) by (bit_vector);
    assert((1u32 << 4u32) == 0x10) by (bit_vector);
    assert((1u32 << 3u32) == 0x8) by (bit_vector);
    assert((1u32 << 2u32) == 0x4) by (bit_vector);
    assert((1u32 << 1u32) == 0x2) by (bit_vector);
    assert((1u32 << 0u32) == 0x1) by (bit_vector);
}

/// The bit pattern of the `f32` equal to the whole number `n`.
pub fn whole_float(n: i16) -> (r: u32)
    ensures
        r == whole_float_bits(n),
{
    reveal(whole_float_bits);
    if n == 0 {
        return 0;
    }
    let a: u32 = if n < 0 {
        (-(n as i32)) as u32
    } else {
        n as u32
    };
    let e = top_bit(a);
    proof {
        lemma_top_bit(a);
    }
    let sign: u32 = if n < 0 {
        0x8000_0000
    } else {
        0
    };
    sign | ((127 + e) << 23u32) | ((a - (1u32 << e)) << (23 - e))
}

/// Where an object is as the game holds it: three `f32` bit patterns, a
/// position stored in whole metres standing at height 0.
pub open spec fn position_bits(p: Position) -> (u32, u32, u32) {
    match p {
        Position::Exact(v) => (v.x, v.y, v.z),
        Position::Short(s) => (whole_float_bits(s.x), 0, whole_float_bits(s.y)),
    }
}

pub(crate) fn position_of(p: &Position) -> (r: (u32, u32, u32))
    ensures
        r == position_bits(*p),
{
    match p {
        Position::Exact(v) => (v.x, v.y, v.z),
        Position::Short(s) => (whole_float(s.x), 0, whole_float(s.y)),
    }
}

/// Where a stand is: prefab and exact position. The conversion keeps
/// positions bit for bit, so exact equality is the test.
pub open spec fn place(z: ZdoModel) -> (i32, u32, u32, u32) {
    let p = position_bits(z.position);
    (z.prefab, p.0, p.1, p.2)
}

/// A place as one number, each part in its own 32 bits.
#[verifier::opaque]
pub open spec fn place_number(p: (i32, u32, u32, u32)) -> u128 {
    ((p.0 as u32) as u128) << 96u128 | (p.1 as u128) << 64u128 | (p.2 as u128) << 32u128 | (p.3 as u128)
}

/// Two places with one number are one place.
pub proof fn lemma_place_number_injective(p: (i32, u32, u32, u32), q: (i32, u32, u32, u32))
    requires
        place_number(p) == place_number(q),
    ensures
        p == q,
{
    reveal(place_number);
    let (a0, a1, a2, a3) = p;
    let (b0, b1, b2, b3) = q;
    let x0 = a0 as u32;
    let y0 = b0 as u32;
    assert(((x0 as u128) << 96u128 | (a1 as u128) << 64u128 | (a2 as u128) << 32u128 | (a3 as u128)) == ((
    y0 as u128) << 96u128 | (b1 as u128) << 64u128 | (b2 as u128) << 32u128 | (b3 as u128)) ==> x0 == y0
        && a1 == b1 && a2 == b2 && a3 == b3) by (bit_vector);
    assert(a0 as u32 == b0 as u32 ==> a0 == b0) by (bit_vector);
}

fn place_number_of(z: &Zdo) -> (r: u128)
    ensures
        r == place_number(place(z.model())),
{
    reveal(place_number);
    let (x, y, w) = position_of(&z.position);
    ((z.prefab as u32) as u128) << 96u128 | (x as u128) << 64u128 | (y as u128) << 32u128 | (w as u128)
}

// ---------------------------------------------------------------- stands

/// The `<n>_item` key.
pub open spec fn slot_key(n: nat) -> i32 {
    key_of(slot_prefix(n), "item"@)
}

/// The prefab name in slot `n` of a pre-1.0 stand: a non-empty string.
pub open spec fn old_slot_item(z: ZdoModel, n: nat) -> Option<Seq<char>> {
    match first_value(z.strings, slot_key(n)) {
        Some(s) => if s.len() > 0 {
            Some(s)
        } else {
            None
        },
        None => None,
    }
}

/// Whether one of the first `k` slots holds an item.
pub open spec fn holds_in(z: ZdoModel, k: nat) -> bool
    decreases k,
{
    k > 0 && (holds_in(z, (k - 1) as nat) || old_slot_item(z, (k - 1) as nat) is Some)
}

/// Whether `z` is a stand holding at least one item.
#[verifier::opaque]
pub open spec fn is_stand(z: ZdoModel) -> bool {
    holds_in(z, ITEM_SLOTS as nat)
}

fn old_slot_item_of(z: &Zdo, n: usize) -> (r: Option<String>)
    requires
        n < ITEM_SLOTS,
    ensures
        match r {
            Some(s) => old_slot_item(z.model(), n as nat) == Some(s@),
            None => old_slot_item(z.model(), n as nat) is None,
        },
{
    let prefix = slot_prefix_string(n);
    proof {
        reveal_strlit("item");
    }
    let key = prefixed_key(prefix.as_str(), "item");
    match z.string(key) {
        Some(s) => if s.is_empty() {
            None
        } else {
            Some(String::from_str(s))
        },
        None => None,
    }
}

fn holds_item(z: &Zdo) -> (r: bool)
    ensures
        r == is_stand(z.model()),
{
    reveal(is_stand);
    let mut k: usize = 0;
    let mut found = false;
    while k < ITEM_SLOTS
        invariant
            k <= ITEM_SLOTS,
            found == holds_in(z.model(), k as nat),
        decreases ITEM_SLOTS - k,
    {
        if old_slot_item_of(z, k).is_some() {
            found = true;
        }
        k = k + 1;
    }
    found
}

/// The stands among the first `n` objects of `old` at place `p`, in file
/// order.
pub open spec fn stands_upto(old: Seq<ZdoModel>, n: nat, p: (i32, u32, u32, u32)) -> Seq<int>
    decreases n,
{
    if n == 0 {
        seq![]
    } else {
        let rest = stands_upto(old, (n - 1) as nat, p);
        if is_stand(old[n - 1]) && place(old[n - 1]) == p {
            rest.push(n - 1)
        } else {
            rest
        }
    }
}

/// How many of the first `n` objects of `old` are stands.
pub open spec fn stand_count(old: Seq<ZdoModel>, n: nat) -> nat
    decreases n,
{
    if n == 0 {
        0
    } else {
        stand_count(old, (n - 1) as nat) + if is_stand(old[n - 1]) {
            1nat
        } else {
            0nat
        }
    }
}


/// Facts about the stand list at a place: every entry is a stand at that
/// place among the first `n` objects, and the entries rise.
proof fn lemma_stands_upto(old: Seq<ZdoModel>, n: nat, p: (i32, u32, u32, u32))
    requires
        n <= old.len(),
    ensures
        forall|k: int|
            #![trigger stands_upto(old, n, p)[k]]
            0 <= k < stands_upto(old, n, p).len() ==> 0 <= stands_upto(old, n, p)[k] < n && is_stand(
                old[stands_upto(old, n, p)[k]],
            ) && place(old[stands_upto(old, n, p)[k]]) == p,
        forall|a: int, b: int|
            #![trigger stands_upto(old, n, p)[a], stands_upto(old, n, p)[b]]
            0 <= a < b < stands_upto(old, n, p).len() ==> stands_upto(old, n, p)[a] < stands_upto(
                old,
                n,
                p,
            )[b],
    decreases n,
{
    if n > 0 {
        let m = (n - 1) as nat;
        lemma_stands_upto(old, m, p);
        let rest = stands_upto(old, m, p);
        let list = stands_upto(old, n, p);
        if is_stand(old[m as int]) && place(old[m as int]) == p {
            assert(list == rest.push(m as int));
            assert forall|k: int| 0 <= k < list.len() implies 0 <= list[k] < n && is_stand(old[list[k]])
                && place(old[list[k]]) == p by {
                if k < rest.len() {
                    assert(list[k] == rest[k]);
                }
            }
            assert forall|a: int, b: int| 0 <= a < b < list.len() implies list[a] < list[b] by {
                assert(list[a] == rest[a]);
                if b < rest.len() {
                    assert(list[b] == rest[b]);
                }
            }
        } else {
            assert(list == rest);
        }
    }
}

// ---------------------------------------------------------------- one slot

/// What restoring one slot came to.
pub enum SlotOutcome {
    /// The old stand holds nothing there.
    Empty,
    /// The new stand holds a different item there now, or none.
    Changed,
    /// The new stand already has a blob there: the item was placed again
    /// after the conversion, or an earlier run restored it.
    AlreadyRestored,
    /// The old world has no item data for the slot.
    WithoutData,
    /// The blob was written for the item named `name`.
    Restored { name: String, item: CompactItem },
}

/// A slot outcome as plain values.
pub enum SlotView {
    Empty,
    Changed,
    AlreadyRestored,
    WithoutData,
    Restored(Seq<char>, CompactModel),
}

impl SlotOutcome {
    pub open spec fn view_outcome(&self) -> SlotView {
        match self {
            SlotOutcome::Empty => SlotView::Empty,
            SlotOutcome::Changed => SlotView::Changed,
            SlotOutcome::AlreadyRestored => SlotView::AlreadyRestored,
            SlotOutcome::WithoutData => SlotView::WithoutData,
            SlotOutcome::Restored { name, item } => SlotView::Restored(name@, item.model()),
        }
    }
}

/// The rest of restoring slot `n`, which names `name`, once its item
/// string is hashed: `t` afterwards and what happened. The blob is written
/// only where the slot still holds the same item and has no blob yet.
#[verifier::opaque]
pub open spec fn slot_tail(
    t: ZdoModel,
    s: ZdoModel,
    n: nat,
    name: Seq<char>,
    version: i32,
    dur: spec_fn(u32) -> i32,
) -> (ZdoModel, SlotView) {
    if first_value(t.ints, slot_key(n)) != Some(spec_stable_hash(name)) {
        (t, SlotView::Changed)
    } else if first_value(t.byte_arrays, key_of(slot_prefix(n), "itemData"@)) is Some {
        (t, SlotView::AlreadyRestored)
    } else {
        match item_at(s, slot_prefix(n), Some(name), version, dur) {
            None => (t, SlotView::WithoutData),
            Some(it) => (stored_item(t, slot_prefix(n), it), SlotView::Restored(name, it)),
        }
    }
}

/// Restoring slot `n` of target `t` from source stand `s` (read at
/// `version`, durabilities by `dur`): the target afterwards, what happened,
/// and whether the slot's item string was hashed first. A slot past the
/// sixth may still name its item with a string, which the stand cannot
/// read: it gets the hash, whether or not a blob follows.
pub open spec fn slot_step(t: ZdoModel, s: ZdoModel, n: nat, version: i32, dur: spec_fn(u32) -> i32) -> (
    ZdoModel,
    SlotView,
    bool,
) {
    match old_slot_item(s, n) {
        None => (t, SlotView::Empty, false),
        Some(name) => {
            let k = slot_key(n);
            let hashed = first_value(t.ints, k) is None && first_value(t.strings, k) == Some(name);
            let t1 = if hashed {
                hashed_prefab(t, k)
            } else {
                t
            };
            let (t2, o) = slot_tail(t1, s, n, name, version, dur);
            (t2, o, hashed)
        },
    }
}

/// Whether the item slot `n` of `s` holds can be written as a blob.
#[verifier::opaque]
pub open spec fn slot_fits(s: ZdoModel, n: nat, version: i32) -> bool {
    match old_slot_item(s, n) {
        Some(name) => match item_at(s, slot_prefix(n), Some(name), version, |b: u32| 0i32) {
            Some(it) => storable(it),
            None => true,
        },
        None => true,
    }
}

/// Whether every item `s` holds can be written as a blob: its crafter name
/// and custom data fit their length prefixes.
pub open spec fn stand_fits(s: ZdoModel, version: i32) -> bool {
    forall|n: nat| n < ITEM_SLOTS ==> #[trigger] slot_fits(s, n, version)
}

proof fn lemma_fits_any_durability(s: ZdoModel, n: nat, version: i32, dur: spec_fn(u32) -> i32)
    requires
        slot_fits(s, n, version),
        old_slot_item(s, n) is Some,
    ensures
        match item_at(s, slot_prefix(n), old_slot_item(s, n), version, dur) {
            Some(it) => storable(it),
            None => true,
        },
{
    reveal(slot_fits);
}

fn slot_fits_check(z: &Zdo, n: usize, version: i32) -> (r: bool)
    requires
        n < ITEM_SLOTS,
    ensures
        r == slot_fits(z.model(), n as nat, version),
{
    reveal(slot_fits);
    let zero = |b: u32| -> (r: i32)
        ensures
            r == 0,
        { 0 };
    match old_slot_item_of(z, n) {
        None => true,
        Some(name) => {
            let prefix = slot_prefix_string(n);
            match item_from_keys(z, prefix.as_str(), Some(name.as_str()), version, &zero) {
                None => true,
                Some(item) => item_fits(&item),
            }
        },
    }
}

/// Whether every item the stand `z` holds can be written as a blob.
pub fn stand_slots_fit(z: &Zdo, version: i32) -> (r: bool)
    ensures
        r == stand_fits(z.model(), version),
{
    let mut n: usize = 0;
    while n < ITEM_SLOTS
        invariant
            n <= ITEM_SLOTS,
            forall|j: nat| j < n ==> #[trigger] slot_fits(z.model(), j, version),
        decreases ITEM_SLOTS - n,
    {
        if !slot_fits_check(z, n, version) {
            return false;
        }
        n = n + 1;
    }
    true
}

#[verifier::spinoff_prover]
#[verifier::rlimit(100)]
fn restore_tail<F: Fn(u32) -> i32>(
    target: &mut Zdo,
    source: &Zdo,
    n: usize,
    name: String,
    version: i32,
    hundredths: &F,
) -> (r: SlotOutcome)
    requires
        n < ITEM_SLOTS,
        forall|b: u32| call_requires(*hundredths, (b,)),
        functional(*hundredths),
        stand_fits(source.model(), version),
        old_slot_item(source.model(), n as nat) == Some(name@),
    ensures
        (final(target).model(), r.view_outcome()) == slot_tail(
            old(target).model(),
            source.model(),
            n as nat,
            name@,
            version,
            dur_of(*hundredths),
        ),
{
    reveal(slot_tail);
    let ghost s = source.model();
    let ghost dur = dur_of(*hundredths);
    let prefix = slot_prefix_string(n);
    proof {
        reveal_strlit("item");
        reveal_strlit("itemData");
    }
    let key = prefixed_key(prefix.as_str(), "item");
    if target.int_value(key) != Some(stable_hash(name.as_str())) {
        return SlotOutcome::Changed;
    }
    if target.bytes(prefixed_key(prefix.as_str(), "itemData")).is_some() {
        return SlotOutcome::AlreadyRestored;
    }
    match item_from_keys(source, prefix.as_str(), Some(name.as_str()), version, hundredths) {
        None => SlotOutcome::WithoutData,
        Some(item) => {
            proof {
                let bits = crate::migrate::durability_bits(s, slot_prefix(n as nat));
                assert(call_ensures(*hundredths, (bits,), item.durability_hundredths));
                assert(call_ensures(*hundredths, (bits,), result_of(*hundredths, bits)));
                assert(dur(bits) == item.durability_hundredths);
                assert(slot_fits(s, n as nat, version));
                lemma_fits_any_durability(s, n as nat, version, dur);
            }
            store_item(target, prefix.as_str(), &item);
            SlotOutcome::Restored { name, item }
        },
    }
}

fn restore_slot<F: Fn(u32) -> i32>(
    target: &mut Zdo,
    source: &Zdo,
    n: usize,
    version: i32,
    hundredths: &F,
) -> (r: (SlotOutcome, bool))
    requires
        n < ITEM_SLOTS,
        forall|b: u32| call_requires(*hundredths, (b,)),
        functional(*hundredths),
        stand_fits(source.model(), version),
    ensures
        ({
            let (t2, o, h) = slot_step(old(target).model(), source.model(), n as nat, version, dur_of(*hundredths));
            final(target).model() == t2 && r.0.view_outcome() == o && r.1 == h
        }),
{
    let name = match old_slot_item_of(source, n) {
        None => {
            return (SlotOutcome::Empty, false);
        },
        Some(name) => name,
    };
    let prefix = slot_prefix_string(n);
    proof {
        reveal_strlit("item");
    }
    let key = prefixed_key(prefix.as_str(), "item");
    let hashed = target.int_value(key).is_none() && match target.string(key) {
        Some(t) => crate::text::str_eq(t, name.as_str()),
        None => false,
    };
    if hashed {
        hash_prefab_string(target, key);
    }
    let o = restore_tail(target, source, n, name, version, hundredths);
    (o, hashed)
}


// ---------------------------------------------------------------- the whole world

/// The first stand of `list` not yet matched.
pub open spec fn first_free(list: Seq<int>, taken: Set<int>) -> Option<int>
    decreases list.len(),
{
    if list.len() == 0 {
        None
    } else if !taken.contains(list[0]) {
        Some(list[0])
    } else {
        first_free(list.drop_first(), taken)
    }
}

proof fn lemma_first_free(list: Seq<int>, taken: Set<int>, c: int)
    requires
        0 <= c <= list.len(),
        forall|k: int| 0 <= k < list.len() ==> (taken.contains(#[trigger] list[k]) <==> k < c),
    ensures
        first_free(list, taken) == if c < list.len() {
            Some(list[c])
        } else {
            None::<int>
        },
    decreases list.len(),
{
    if list.len() > 0 && c > 0 {
        let rest = list.drop_first();
        assert forall|k: int| 0 <= k < rest.len() implies (taken.contains(#[trigger] rest[k]) <==> k < c - 1) by {
            assert(rest[k] == list[k + 1]);
        }
        lemma_first_free(rest, taken, c - 1);
        assert(taken.contains(list[0]));
        if c < list.len() {
            assert(rest[c - 1] == list[c]);
        }
    }
}

/// Restoring slots `0` to `k - 1` of `t` from `s`: the target afterwards,
/// and each slot's number, outcome and whether its item string was hashed.
pub open spec fn slots_step(t: ZdoModel, s: ZdoModel, k: nat, version: i32, dur: spec_fn(u32) -> i32) -> (
    ZdoModel,
    Seq<(nat, SlotView, bool)>,
)
    decreases k,
{
    if k == 0 {
        (t, seq![])
    } else {
        let (t1, outs) = slots_step(t, s, (k - 1) as nat, version, dur);
        let (t2, o, h) = slot_step(t1, s, (k - 1) as nat, version, dur);
        (t2, outs.push(((k - 1) as nat, o, h)))
    }
}

/// Slot outcomes tagged with the index `j` of their target.
pub open spec fn tagged(j: int, outs: Seq<(nat, SlotView, bool)>) -> Seq<(int, nat, SlotView, bool)> {
    Seq::new(outs.len(), |i: int| (j, outs[i].0, outs[i].1, outs[i].2))
}

/// What restoring has done after the first `j` objects of the new world.
pub struct RestoreTrace {
    /// Those objects afterwards.
    pub zdos: Seq<ZdoModel>,
    /// The old stands matched, by index.
    pub taken: Set<int>,
    /// How many new objects found their old stand.
    pub matched: nat,
    /// Every slot looked at: target index, slot, outcome, hashed.
    pub slots: Seq<(int, nat, SlotView, bool)>,
}

/// Restoring the first `j` objects of `news` from the stands of `old`:
/// each object takes the first old stand at its place that no earlier object
/// took (two stands on one spot are matched in file order), and its slots
/// are restored from it.
pub open spec fn restore_trace(
    old: Seq<ZdoModel>,
    news: Seq<ZdoModel>,
    j: nat,
    version: i32,
    dur: spec_fn(u32) -> i32,
) -> RestoreTrace
    decreases j,
{
    if j == 0 {
        RestoreTrace { zdos: seq![], taken: Set::empty(), matched: 0, slots: seq![] }
    } else {
        let prev = restore_trace(old, news, (j - 1) as nat, version, dur);
        let t = news[j - 1];
        match first_free(stands_upto(old, old.len(), place(t)), prev.taken) {
            None => RestoreTrace { zdos: prev.zdos.push(t), ..prev },
            Some(i) => {
                let (t2, outs) = slots_step(t, old[i], ITEM_SLOTS as nat, version, dur);
                RestoreTrace {
                    zdos: prev.zdos.push(t2),
                    taken: prev.taken.insert(i),
                    matched: prev.matched + 1,
                    slots: prev.slots + tagged(j - 1, outs),
                }
            },
        }
    }
}

/// How many slots came out as `f` says.
pub open spec fn count_outcomes(s: Seq<(int, nat, SlotView, bool)>, f: spec_fn(SlotView) -> bool) -> nat
    decreases s.len(),
{
    if s.len() == 0 {
        0
    } else {
        count_outcomes(s.drop_last(), f) + if f(s.last().2) {
            1nat
        } else {
            0nat
        }
    }
}

/// How many slots had their item string hashed.
pub open spec fn count_hashed(s: Seq<(int, nat, SlotView, bool)>) -> nat
    decreases s.len(),
{
    if s.len() == 0 {
        0
    } else {
        count_hashed(s.drop_last()) + if s.last().3 {
            1nat
        } else {
            0nat
        }
    }
}

/// How many of the first `n` objects of `old` are stands not taken.
pub open spec fn untaken_count(old: Seq<ZdoModel>, taken: Set<int>, n: nat) -> nat
    decreases n,
{
    if n == 0 {
        0
    } else {
        untaken_count(old, taken, (n - 1) as nat) + if is_stand(old[n - 1]) && !taken.contains(n - 1) {
            1nat
        } else {
            0nat
        }
    }
}

/// One restored slot, for the detailed report.
pub struct RestoredSlot {
    /// The stand's prefab name.
    pub stand: String,
    pub position: Position,
    pub slot: i32,
    pub item: String,
    pub quality: i32,
    pub durability_hundredths: i32,
    pub crafter: String,
}

/// A restored-slot line as plain values.
pub open spec fn row_view(r: RestoredSlot) -> (Seq<char>, Position, i32, Seq<char>, i32, i32, Seq<char>) {
    (r.stand@, r.position, r.slot, r.item@, r.quality, r.durability_hundredths, r.crafter@)
}

/// An item's quality, 1 when the record leaves it out.
pub open spec fn quality_of(it: CompactModel) -> i32 {
    match it.quality {
        Some(q) => q as i32,
        None => 1,
    }
}

/// An item's crafter name, empty when it has none.
pub open spec fn crafter_of(it: CompactModel) -> Seq<char> {
    match it.crafter {
        Some(c) => c.1,
        None => seq![],
    }
}

/// The lines of the detailed report: one per restored slot, in order.
pub open spec fn rows_of(
    names: Map<i32, Seq<char>>,
    news: Seq<ZdoModel>,
    s: Seq<(int, nat, SlotView, bool)>,
) -> Seq<(Seq<char>, Position, i32, Seq<char>, i32, i32, Seq<char>)>
    decreases s.len(),
{
    if s.len() == 0 {
        seq![]
    } else {
        let rest = rows_of(names, news, s.drop_last());
        let e = s.last();
        match e.2 {
            SlotView::Restored(name, it) => rest.push(
                (
                    display_of(names, news[e.0].prefab),
                    news[e.0].position,
                    e.1 as i32,
                    name,
                    quality_of(it),
                    it.durability_hundredths,
                    crafter_of(it),
                ),
            ),
            _ => rest,
        }
    }
}

/// What restoring armor stands did.
pub struct Report {
    /// Stands in the old world holding at least one item.
    pub old_stands: usize,
    /// Of those, stands found at the same place in the new world.
    pub stands_matched: usize,
    /// Slots whose blob was written.
    pub slots_restored: usize,
    /// Slots left alone because the new world already has a blob for them.
    pub slots_already_restored: usize,
    /// Slots left alone because the new stand holds a different item, or
    /// none, there now.
    pub slots_changed: usize,
    /// Slots in the old world with no item data to restore from.
    pub slots_without_data: usize,
    /// Slots whose `<n>_item` was still a prefab-name string in the new
    /// world and has been hashed.
    pub slot_items_hashed: usize,
    /// Old stands with no counterpart in the new world (moved or gone).
    pub stands_unmatched: usize,
    /// One line per restored slot, when asked for.
    pub restored: Vec<RestoredSlot>,
}

pub open spec fn is_restored(o: SlotView) -> bool {
    o is Restored
}

pub open spec fn is_already(o: SlotView) -> bool {
    o is AlreadyRestored
}

pub open spec fn is_changed(o: SlotView) -> bool {
    o is Changed
}

pub open spec fn is_without_data(o: SlotView) -> bool {
    o is WithoutData
}

/// Whether `r` reports the trace `tr` of restoring from `old`.
pub open spec fn reports(
    r: Report,
    tr: RestoreTrace,
    old: Seq<ZdoModel>,
    news: Seq<ZdoModel>,
    names: Map<i32, Seq<char>>,
    detailed: bool,
) -> bool {
    &&& r.old_stands == stand_count(old, old.len())
    &&& r.stands_matched == tr.matched
    &&& r.stands_unmatched == untaken_count(old, tr.taken, old.len())
    &&& r.slots_restored == count_outcomes(tr.slots, |o: SlotView| is_restored(o))
    &&& r.slots_already_restored == count_outcomes(tr.slots, |o: SlotView| is_already(o))
    &&& r.slots_changed == count_outcomes(tr.slots, |o: SlotView| is_changed(o))
    &&& r.slots_without_data == count_outcomes(tr.slots, |o: SlotView| is_without_data(o))
    &&& r.slot_items_hashed == count_hashed(tr.slots)
    &&& detailed ==> r.restored@.map_values(|x: RestoredSlot| row_view(x)) == rows_of(names, news, tr.slots)
    &&& !detailed ==> r.restored@.len() == 0
}


/// Whether `b` holds, under the number of place `p`, the stands of the
/// first `n` objects of `old` at `p` in file order, with a cursor before
/// which exactly the stands in `taken` stand.
pub open spec fn bucket_ok(
    b: Map<u128, (Vec<usize>, usize)>,
    old: Seq<ZdoModel>,
    n: nat,
    taken: Set<int>,
    p: (i32, u32, u32, u32),
) -> bool {
    let key = place_number(p);
    let list = stands_upto(old, n, p);
    if b.contains_key(key) {
        &&& b[key].0@.len() == list.len()
        &&& forall|k: int| 0 <= k < list.len() ==> #[trigger] b[key].0@[k] as int == list[k]
        &&& b[key].1 <= list.len()
        &&& forall|k: int| 0 <= k < list.len() ==> (taken.contains(#[trigger] list[k]) <==> k < b[key].1)
    } else {
        list.len() == 0
    }
}

proof fn lemma_trace_len(old: Seq<ZdoModel>, news: Seq<ZdoModel>, j: nat, version: i32, dur: spec_fn(u32) -> i32)
    ensures
        restore_trace(old, news, j, version, dur).zdos.len() == j,
        restore_trace(old, news, j, version, dur).matched <= j,
        restore_trace(old, news, j, version, dur).slots.len() <= ITEM_SLOTS * j,
    decreases j,
{
    if j > 0 {
        lemma_trace_len(old, news, (j - 1) as nat, version, dur);
        lemma_slots_step_len(news[j - 1], old[0], ITEM_SLOTS as nat, version, dur);
        let prev = restore_trace(old, news, (j - 1) as nat, version, dur);
        match first_free(stands_upto(old, old.len(), place(news[j - 1])), prev.taken) {
            None => {},
            Some(i) => {
                lemma_slots_step_len(news[j - 1], old[i], ITEM_SLOTS as nat, version, dur);
            },
        }
    }
}

proof fn lemma_slots_step_len(t: ZdoModel, s: ZdoModel, k: nat, version: i32, dur: spec_fn(u32) -> i32)
    ensures
        slots_step(t, s, k, version, dur).1.len() == k,
    decreases k,
{
    if k > 0 {
        lemma_slots_step_len(t, s, (k - 1) as nat, version, dur);
    }
}

proof fn lemma_bucket_add(
    b0: Map<u128, (Vec<usize>, usize)>,
    b1: Map<u128, (Vec<usize>, usize)>,
    olds: Seq<ZdoModel>,
    i: nat,
    q: (i32, u32, u32, u32),
)
    requires
        i < olds.len(),
        i <= usize::MAX,
        is_stand(olds[i as int]),
        place(olds[i as int]) == q,
        forall|p: (i32, u32, u32, u32)| #[trigger] bucket_ok(b0, olds, i, Set::empty(), p),
        b1.contains_key(place_number(q)),
        b1[place_number(q)].1 == 0,
        b1[place_number(q)].0@ == (if b0.contains_key(place_number(q)) {
            b0[place_number(q)].0@
        } else {
            Seq::<usize>::empty()
        }).push(i as usize),
        forall|k: u128| k != place_number(q) ==> b1.contains_key(k) == b0.contains_key(k),
        forall|k: u128| k != place_number(q) && b0.contains_key(k) ==> b1[k] == b0[k],
    ensures
        forall|p: (i32, u32, u32, u32)| #[trigger] bucket_ok(b1, olds, i + 1, Set::empty(), p),
{
    assert forall|p: (i32, u32, u32, u32)| #[trigger] bucket_ok(b1, olds, i + 1, Set::empty(), p) by {
        assert(bucket_ok(b0, olds, i, Set::empty(), p));
        let l0 = stands_upto(olds, i, p);
        let l1 = stands_upto(olds, i + 1, p);
        let key = place_number(p);
        if key == place_number(q) {
            lemma_place_number_injective(p, q);
            assert(l1 == l0.push(i as int));
            let v = b1[key].0@;
            assert forall|k: int| 0 <= k < l1.len() implies #[trigger] v[k] as int == l1[k] by {
                if k < l0.len() {
                    assert(v[k] == b0[key].0@[k]);
                    assert(b0[key].0@[k] as int == l0[k]);
                } else {
                    assert(v[k] == i as usize);
                }
            }
        } else {
            if p == q {
                assert(false);
            }
            assert(l1 == l0);
        }
    }
}

proof fn lemma_bucket_skip(b: Map<u128, (Vec<usize>, usize)>, olds: Seq<ZdoModel>, i: nat)
    requires
        i < olds.len(),
        !is_stand(olds[i as int]),
        forall|p: (i32, u32, u32, u32)| #[trigger] bucket_ok(b, olds, i, Set::empty(), p),
    ensures
        forall|p: (i32, u32, u32, u32)| #[trigger] bucket_ok(b, olds, i + 1, Set::empty(), p),
{
    assert forall|p: (i32, u32, u32, u32)| #[trigger] bucket_ok(b, olds, i + 1, Set::empty(), p) by {
        assert(bucket_ok(b, olds, i, Set::empty(), p));
        assert(stands_upto(olds, i + 1, p) == stands_upto(olds, i, p));
    }
}

fn stand_buckets(old: &Vec<Zdo>) -> (r: (HashMapWithView<u128, (Vec<usize>, usize)>, usize))
    ensures
        forall|p: (i32, u32, u32, u32)|
            #[trigger] bucket_ok(r.0@, crate::clean::models_of(old@), old@.len() as nat, Set::empty(), p),
        r.1 == stand_count(crate::clean::models_of(old@), old@.len() as nat),
{
    let ghost olds = crate::clean::models_of(old@);
    let mut buckets: HashMapWithView<u128, (Vec<usize>, usize)> = HashMapWithView::new();
    let mut count: usize = 0;
    let mut i: usize = 0;
    proof {
        assert forall|p: (i32, u32, u32, u32)| #[trigger] bucket_ok(buckets@, olds, 0, Set::empty(), p) by {}
    }
    while i < old.len()
        invariant
            i <= old@.len(),
            olds == crate::clean::models_of(old@),
            count == stand_count(olds, i as nat),
            count <= i,
            forall|p: (i32, u32, u32, u32)| #[trigger] bucket_ok(buckets@, olds, i as nat, Set::empty(), p),
        decreases old@.len() - i,
    {
        assert(olds[i as int] == old@[i as int].model());
        if holds_item(&old[i]) {
            let key = place_number_of(&old[i]);
            let ghost q = place(olds[i as int]);
            let ghost b0 = buckets@;
            match buckets.remove(&key) {
                Some((list, c)) => {
                    proof {
                        assert(bucket_ok(b0, olds, i as nat, Set::empty(), q));
                        if c > 0 {
                            assert(!Set::<int>::empty().contains(stands_upto(olds, i as nat, q)[0]));
                        }
                    }
                    let mut list = list;
                    list.push(i);
                    buckets.insert(key, (list, 0));
                },
                None => {
                    let mut list: Vec<usize> = Vec::new();
                    list.push(i);
                    buckets.insert(key, (list, 0));
                },
            }
            proof {
                lemma_bucket_add(b0, buckets@, olds, i as nat, q);
                assert forall|p: (i32, u32, u32, u32)| #[trigger]
                    bucket_ok(buckets@, olds, (i + 1) as nat, Set::empty(), p) by {
                    assert(bucket_ok(buckets@, olds, i as nat + 1, Set::empty(), p));
                }
            }
            count = count + 1;
        } else {
            proof {
                lemma_bucket_skip(buckets@, olds, i as nat);
                assert forall|p: (i32, u32, u32, u32)| #[trigger]
                    bucket_ok(buckets@, olds, (i + 1) as nat, Set::empty(), p) by {
                    assert(bucket_ok(buckets@, olds, i as nat + 1, Set::empty(), p));
                }
            }
        }
        let ghost next: nat = (i + 1) as nat;
        assert(forall|p: (i32, u32, u32, u32)| #[trigger] bucket_ok(buckets@, olds, next, Set::empty(), p));
        i = i + 1;
        assert forall|p: (i32, u32, u32, u32)| #[trigger] bucket_ok(buckets@, olds, i as nat, Set::empty(), p) by {
            assert(i as nat == next);
            assert(bucket_ok(buckets@, olds, next, Set::empty(), p));
        }
    }
    (buckets, count)
}

fn count_untaken(old: &Vec<Zdo>, taken: &Vec<bool>, Ghost(t): Ghost<Set<int>>) -> (r: usize)
    requires
        taken@.len() == old@.len(),
        forall|i: int| 0 <= i < old@.len() ==> (taken@[i] <==> t.contains(i)),
    ensures
        r == untaken_count(crate::clean::models_of(old@), t, old@.len() as nat),
{
    let ghost olds = crate::clean::models_of(old@);
    let mut count: usize = 0;
    let mut i: usize = 0;
    while i < old.len()
        invariant
            i <= old@.len(),
            taken@.len() == old@.len(),
            forall|i: int| 0 <= i < old@.len() ==> (taken@[i] <==> t.contains(i)),
            olds == crate::clean::models_of(old@),
            count == untaken_count(olds, t, i as nat),
            count <= i,
        decreases old@.len() - i,
    {
        assert(olds[i as int] == old@[i as int].model());
        if holds_item(&old[i]) && !taken[i] {
            count = count + 1;
        }
        i = i + 1;
    }
    count
}

/// The counters of `r` say what the slots `s` came to, and its lines list
/// the restored ones when `detailed`.
pub open spec fn counts_agree(
    r: Report,
    s: Seq<(int, nat, SlotView, bool)>,
    names: Map<i32, Seq<char>>,
    news: Seq<ZdoModel>,
    detailed: bool,
) -> bool {
    &&& r.slots_restored == count_outcomes(s, |o: SlotView| is_restored(o))
    &&& r.slots_already_restored == count_outcomes(s, |o: SlotView| is_already(o))
    &&& r.slots_changed == count_outcomes(s, |o: SlotView| is_changed(o))
    &&& r.slots_without_data == count_outcomes(s, |o: SlotView| is_without_data(o))
    &&& r.slot_items_hashed == count_hashed(s)
    &&& r.slots_restored <= s.len()
    &&& r.slots_already_restored <= s.len()
    &&& r.slots_changed <= s.len()
    &&& r.slots_without_data <= s.len()
    &&& r.slot_items_hashed <= s.len()
    &&& detailed ==> r.restored@.map_values(|x: RestoredSlot| row_view(x)) == rows_of(names, news, s)
    &&& !detailed ==> r.restored@.len() == 0
}

#[verifier::rlimit(60)]
fn restore_target<F: Fn(u32) -> i32>(
    target: &mut Zdo,
    source: &Zdo,
    j: usize,
    version: i32,
    names: &NameTable,
    detailed: bool,
    hundredths: &F,
    report: &mut Report,
    Ghost(prev): Ghost<Seq<(int, nat, SlotView, bool)>>,
    Ghost(news): Ghost<Seq<ZdoModel>>,
)
    requires
        forall|b: u32| call_requires(*hundredths, (b,)),
        functional(*hundredths),
        stand_fits(source.model(), version),
        j < news.len(),
        news[j as int] == old(target).model(),
        counts_agree(*old(report), prev, names@, news, detailed),
        prev.len() + ITEM_SLOTS <= usize::MAX,
    ensures
        ({
            let (t2, outs) = slots_step(old(target).model(), source.model(), ITEM_SLOTS as nat, version, dur_of(*hundredths));
            &&& final(target).model() == t2
            &&& counts_agree(*final(report), prev + tagged(j as int, outs), names@, news, detailed)
        }),
        final(report).old_stands == old(report).old_stands,
        final(report).stands_matched == old(report).stands_matched,
        final(report).stands_unmatched == old(report).stands_unmatched,
{
    let ghost t0 = target.model();
    let ghost s = source.model();
    let ghost dur = dur_of(*hundredths);
    let ghost nm = names@;
    let prefab = target.prefab;
    let position = target.position;
    let ghost mut outs: Seq<(nat, SlotView, bool)> = seq![];
    let mut n: usize = 0;
    assert(prev + tagged(j as int, outs) =~= prev);
    while n < ITEM_SLOTS
        invariant
            n <= ITEM_SLOTS,
            forall|b: u32| call_requires(*hundredths, (b,)),
            functional(*hundredths),
            dur == dur_of(*hundredths),
            s == source.model(),
            stand_fits(s, version),
            j < news.len(),
            prefab == news[j as int].prefab,
            position == news[j as int].position,
            nm == names@,
            (target.model(), outs) == slots_step(t0, s, n as nat, version, dur),
            outs.len() == n,
            counts_agree(*report, prev + tagged(j as int, outs), nm, news, detailed),
            prev.len() + ITEM_SLOTS <= usize::MAX,
            report.old_stands == old(report).old_stands,
            report.stands_matched == old(report).stands_matched,
            report.stands_unmatched == old(report).stands_unmatched,
        decreases ITEM_SLOTS - n,
    {
        let ghost cur = prev + tagged(j as int, outs);
        let (o, hashed) = restore_slot(target, source, n, version, hundredths);
        let ghost ov = o.view_outcome();
        let ghost next = outs.push((n as nat, ov, hashed));
        proof {
            assert(prev + tagged(j as int, next) =~= cur.push((j as int, n as nat, ov, hashed)));
            assert(cur.push((j as int, n as nat, ov, hashed)).drop_last() =~= cur);
        }
        match o {
            SlotOutcome::Restored { name, item } => {
                report.slots_restored = report.slots_restored + 1;
                if detailed {
                    let row = RestoredSlot {
                        stand: names.display(prefab),
                        position,
                        slot: n as i32,
                        item: name,
                        quality: match item.quality {
                            Some(q) => q as i32,
                            None => 1,
                        },
                        durability_hundredths: item.durability_hundredths,
                        crafter: match &item.crafter {
                            Some(c) => c.name.0.clone(),
                            None => String::new(),
                        },
                    };
                    let ghost rows0 = report.restored@;
                    report.restored.push(row);
                    assert(report.restored@.map_values(|x: RestoredSlot| row_view(x)) =~= rows0.map_values(
                        |x: RestoredSlot| row_view(x),
                    ).push(row_view(row)));
                }
            },
            SlotOutcome::AlreadyRestored => {
                report.slots_already_restored = report.slots_already_restored + 1;
            },
            SlotOutcome::Changed => {
                report.slots_changed = report.slots_changed + 1;
            },
            SlotOutcome::WithoutData => {
                report.slots_without_data = report.slots_without_data + 1;
            },
            SlotOutcome::Empty => {},
        }
        if hashed {
            report.slot_items_hashed = report.slot_items_hashed + 1;
        }
        proof {
            outs = next;
        }
        n = n + 1;
    }
}


proof fn lemma_bucket_take(
    b0: Map<u128, (Vec<usize>, usize)>,
    b1: Map<u128, (Vec<usize>, usize)>,
    olds: Seq<ZdoModel>,
    taken: Set<int>,
    q: (i32, u32, u32, u32),
)
    requires
        forall|p: (i32, u32, u32, u32)| #[trigger] bucket_ok(b0, olds, olds.len(), taken, p),
        b0.contains_key(place_number(q)),
        b0[place_number(q)].1 < b0[place_number(q)].0@.len(),
        b1.contains_key(place_number(q)),
        b1[place_number(q)].0 == b0[place_number(q)].0,
        b1[place_number(q)].1 == b0[place_number(q)].1 + 1,
        forall|k: u128| k != place_number(q) ==> b1.contains_key(k) == b0.contains_key(k),
        forall|k: u128| k != place_number(q) && b0.contains_key(k) ==> b1[k] == b0[k],
    ensures
        forall|p: (i32, u32, u32, u32)|
            #[trigger] bucket_ok(
                b1,
                olds,
                olds.len(),
                taken.insert(stands_upto(olds, olds.len(), q)[b0[place_number(q)].1 as int]),
                p,
            ),
{
    let lq = stands_upto(olds, olds.len(), q);
    let c = b0[place_number(q)].1 as int;
    assert(bucket_ok(b0, olds, olds.len(), taken, q));
    let idx = lq[c];
    let t1 = taken.insert(idx);
    lemma_stands_upto(olds, olds.len(), q);
    assert forall|p: (i32, u32, u32, u32)| #[trigger] bucket_ok(b1, olds, olds.len(), t1, p) by {
        assert(bucket_ok(b0, olds, olds.len(), taken, p));
        let lp = stands_upto(olds, olds.len(), p);
        let key = place_number(p);
        lemma_stands_upto(olds, olds.len(), p);
        if key == place_number(q) {
            lemma_place_number_injective(p, q);
            assert forall|k: int| 0 <= k < lp.len() implies (t1.contains(#[trigger] lp[k]) <==> k < b1[key].1) by {
                if k != c {
                    if k < c {
                        assert(lp[k] < lp[c]);
                    } else {
                        assert(lp[c] < lp[k]);
                    }
                }
            }
            assert forall|k: int| 0 <= k < lp.len() implies #[trigger] b1[key].0@[k] as int == lp[k] by {
                assert(b0[key].0@[k] as int == lp[k]);
            }
        } else {
            if b0.contains_key(key) {
                assert forall|k: int| 0 <= k < lp.len() implies (t1.contains(#[trigger] lp[k]) <==> k < b1[key].1) by {
                    assert(place(olds[lp[k]]) == p);
                    assert(place(olds[idx]) == q);
                    if p == q {
                        assert(false);
                    }
                    assert(lp[k] != idx);
                }
                assert forall|k: int| 0 <= k < lp.len() implies #[trigger] b1[key].0@[k] as int == lp[k] by {
                    assert(b0[key].0@[k] as int == lp[k]);
                }
            }
        }
    }
}

/// Copy each armor-stand slot's item data from `old_zdos`, the objects of the
/// world before the game converted it (read at `old_version`), into `new`,
/// the converted world's objects, where the slot still holds the same item
/// and has no blob yet. Each object of `new` takes the first unmatched old
/// stand at its exact place. `hundredths` turns a durability's float bit
/// pattern into hundredths; `detailed` lists every restored slot.
pub fn restore_armor_stands<F: Fn(u32) -> i32>(
    old_zdos: &Vec<Zdo>,
    old_version: i32,
    new: &mut Vec<Zdo>,
    names: &NameTable,
    detailed: bool,
    hundredths: &F,
) -> (r: Report)
    requires
        forall|b: u32| call_requires(*hundredths, (b,)),
        functional(*hundredths),
        forall|i: int| 0 <= i < old_zdos@.len() ==> stand_fits(#[trigger] old_zdos@[i].model(), old_version),
        ITEM_SLOTS * old(new)@.len() <= usize::MAX,
    ensures
        ({
            let tr = restore_trace(
                crate::clean::models_of(old_zdos@),
                crate::clean::models_of(old(new)@),
                old(new)@.len() as nat,
                old_version,
                dur_of(*hundredths),
            );
            &&& crate::clean::models_of(final(new)@) == tr.zdos
            &&& reports(r, tr, crate::clean::models_of(old_zdos@), crate::clean::models_of(old(new)@), names@, detailed)
        }),
{
    let ghost olds = crate::clean::models_of(old_zdos@);
    let ghost news = crate::clean::models_of(new@);
    let ghost dur = dur_of(*hundredths);
    let ghost big_n = olds.len();
    let (mut buckets, stands) = stand_buckets(old_zdos);
    let mut taken: Vec<bool> = Vec::new();
    let mut i: usize = 0;
    while i < old_zdos.len()
        invariant
            i <= old_zdos@.len(),
            taken@.len() == i,
            forall|k: int| 0 <= k < i ==> !taken@[k],
        decreases old_zdos@.len() - i,
    {
        taken.push(false);
        i = i + 1;
    }
    let ghost mut tk: Set<int> = Set::empty();
    let mut report = Report {
        old_stands: stands,
        stands_matched: 0,
        slots_restored: 0,
        slots_already_restored: 0,
        slots_changed: 0,
        slots_without_data: 0,
        slot_items_hashed: 0,
        stands_unmatched: 0,
        restored: Vec::new(),
    };
    let ghost mut slots: Seq<(int, nat, SlotView, bool)> = seq![];
    proof {
        assert(report.restored@.map_values(|x: RestoredSlot| row_view(x)) =~= seq![]);
    }
    let n = new.len();
    let mut j: usize = 0;
    while j < n
        invariant
            j <= n,
            n == new@.len(),
            n == news.len(),
            ITEM_SLOTS * n <= usize::MAX,
            olds == crate::clean::models_of(old_zdos@),
            news == crate::clean::models_of(old(new)@),
            big_n == olds.len(),
            dur == dur_of(*hundredths),
            forall|b: u32| call_requires(*hundredths, (b,)),
            functional(*hundredths),
            forall|i: int| 0 <= i < old_zdos@.len() ==> stand_fits(#[trigger] old_zdos@[i].model(), old_version),
            forall|k: int| j <= k < n ==> #[trigger] new@[k] == old(new)@[k],
            restore_trace(olds, news, j as nat, old_version, dur).zdos.len() == j,
            forall|k: int| 0 <= k < j ==> #[trigger] new@[k].model() == restore_trace(olds, news, j as nat, old_version, dur).zdos[k],
            tk == restore_trace(olds, news, j as nat, old_version, dur).taken,
            report.stands_matched == restore_trace(olds, news, j as nat, old_version, dur).matched,
            slots == restore_trace(olds, news, j as nat, old_version, dur).slots,
            slots.len() <= ITEM_SLOTS * j,
            report.stands_matched <= j,
            counts_agree(report, slots, names@, news, detailed),
            report.old_stands == stand_count(olds, big_n),
            forall|p: (i32, u32, u32, u32)| #[trigger] bucket_ok(buckets@, olds, big_n, tk, p),
            taken@.len() == old_zdos@.len(),
            forall|i: int| 0 <= i < old_zdos@.len() ==> (taken@[i] <==> tk.contains(i)),
        decreases n - j,
    {
        let ghost prev = restore_trace(olds, news, j as nat, old_version, dur);
        proof {
            lemma_trace_len(olds, news, (j + 1) as nat, old_version, dur);
            assert(new@[j as int] == old(new)@[j as int]);
            assert(news[j as int] == new@[j as int].model());
        }
        let key = place_number_of(&new[j]);
        let ghost q = place(news[j as int]);
        let ghost lq = stands_upto(olds, big_n, q);
        proof {
            assert(bucket_ok(buckets@, olds, big_n, tk, q));
        }
        let source: Option<usize> = match buckets.get(&key) {
            Some(e) => if e.1 < e.0.len() {
                Some(e.0[e.1])
            } else {
                None
            },
            None => None,
        };
        proof {
            if buckets@.contains_key(key) {
                lemma_first_free(lq, tk, buckets@[key].1 as int);
                if buckets@[key].1 < lq.len() {
                    assert(buckets@[key].0@[buckets@[key].1 as int] as int == lq[buckets@[key].1 as int]);
                }
            }
        }
        let ghost cur = restore_trace(olds, news, (j + 1) as nat, old_version, dur);
        match source {
            Some(idx) => {
                let ghost b0 = buckets@;
                let ghost c = b0[key].1;
                match buckets.remove(&key) {
                    Some((list, c)) => {
                        buckets.insert(key, (list, c + 1));
                    },
                    None => {},
                }
                proof {
                    lemma_bucket_take(b0, buckets@, olds, tk, q);
                    lemma_stands_upto(olds, big_n, q);
                    tk = tk.insert(idx as int);
                }
                taken.set(idx, true);
                report.stands_matched = report.stands_matched + 1;
                let ghost t0 = new@[j as int].model();
                let ghost outs = slots_step(t0, olds[idx as int], ITEM_SLOTS as nat, old_version, dur).1;
                proof {
                    assert(olds[idx as int] == old_zdos@[idx as int].model());
                    lemma_slots_step_len(t0, olds[idx as int], ITEM_SLOTS as nat, old_version, dur);
                }
                restore_target(
                    &mut new[j],
                    &old_zdos[idx],
                    j,
                    old_version,
                    names,
                    detailed,
                    hundredths,
                    &mut report,
                    Ghost(slots),
                    Ghost(news),
                );
                proof {
                    slots = slots + tagged(j as int, outs);
                }
            },
            None => {},
        }
        proof {
            assert(cur.zdos.len() == j + 1);
            assert forall|k: int| 0 <= k < j + 1 implies #[trigger] new@[k].model() == cur.zdos[k] by {
                if k < j {
                    assert(cur.zdos[k] == prev.zdos[k]);
                }
            }
        }
        j = j + 1;
    }
    report.stands_unmatched = count_untaken(old_zdos, &taken, Ghost(tk));
    proof {
        assert(crate::clean::models_of(new@) =~= restore_trace(olds, news, n as nat, old_version, dur).zdos);
    }
    report
}

} // verus!
