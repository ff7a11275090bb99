//! What the game does to a pre-1.0 world's objects before it saves them in
//! the chunked layout: an item's scattered `stack`, `durability`,
//! `crafterName`, ... keys become one `itemData` byte array (for loose items
//! and for each armor-stand slot), a container's base64 `items` string
//! becomes a raw byte array, and `Content`, `item` and `<n>_item` change from
//! prefab-name strings to their stable hashes.
//!
//! Every `<n>_item` is hashed here, where the game stops after `5_item`, and
//! the fold drops the indexed keys it consumed.

use vstd::prelude::*;
use crate::hash::{spec_stable_hash, stable_hash};
use crate::inventory::{
    item_fits, opt_encodable, single_bytes, CompactItem, CompactModel, Crafter, PackedStringMap, ser_single,
};
use crate::container::{
    base64_decoded, compacted, package_writable, parse_inventory, ser_inventory, Inventory,
    InventoryModel,
};
use crate::primitives::{ByteArray, CsString, StringStringEntry};
use crate::text::{decimal, push_decimal};
use crate::versions::{INVENTORY_CURRENT, WORLD_CHUNKED_SAVE};
use crate::wire::Wire;
use crate::zdo::{first_value, first_with_key, PropTable, TableValue, Zdo, ZdoModel};

verus! {

/// Slots an armor stand can have, and so the number of `<n>_` key sets an
/// object can carry.
pub const ITEM_SLOTS: usize = 14;

/// How far the game's own prefab-string conversion gets: `0_item` through
/// `5_item`.
pub const GAME_HASHED_SLOTS: usize = 6;

/// Whether an object read at world `version` still needs these migrations.
pub open spec fn spec_needs_migration(version: i32) -> bool {
    version < WORLD_CHUNKED_SAVE
}

/// Whether an object read at world `version` still needs these migrations.
pub fn needs_migration(version: i32) -> (r: bool)
    ensures
        r == spec_needs_migration(version),
{
    version < WORLD_CHUNKED_SAVE
}

/// The key `prefix` + `name` stands for.
pub open spec fn key_of(prefix: Seq<char>, name: Seq<char>) -> i32 {
    spec_stable_hash(prefix + name)
}

/// The key `prefix` + `name` stands for.
pub fn prefixed_key(prefix: &str, name: &str) -> (k: i32)
    ensures
        k == key_of(prefix@, name@),
{
    let mut s = String::from_str(prefix);
    s.append(name);
    stable_hash(s.as_str())
}

/// The prefix of slot `n`: `n_`.
pub open spec fn slot_prefix(n: nat) -> Seq<char> {
    decimal(n) + seq!['_']
}

/// The prefix of slot `n`.
pub fn slot_prefix_string(n: usize) -> (s: String)
    ensures
        s@ == slot_prefix(n as nat),
{
    let mut s = String::new();
    push_decimal(&mut s, n as u64);
    proof {
        reveal_strlit("_");
    }
    s.append("_");
    assert(s@ =~= slot_prefix(n as nat));
    s
}

/// The `<n>_item` key for every slot.
pub fn slot_item_keys() -> (keys: Vec<i32>)
    ensures
        keys@.len() == ITEM_SLOTS,
        forall|n: int| 0 <= n < ITEM_SLOTS ==> #[trigger] keys@[n] == key_of(slot_prefix(n as nat), "item"@),
{
    let mut keys: Vec<i32> = Vec::new();
    let mut n: usize = 0;
    while n < ITEM_SLOTS
        invariant
            n <= ITEM_SLOTS,
            keys@.len() == n,
            forall|j: int| 0 <= j < n ==> #[trigger] keys@[j] == key_of(slot_prefix(j as nat), "item"@),
        decreases ITEM_SLOTS - n,
    {
        let p = slot_prefix_string(n);
        keys.push(prefixed_key(p.as_str(), "item"));
        n = n + 1;
    }
    keys
}

// ---------------------------------------------------------------- editing tables

/// `s` without the entries whose key is `key`.
pub open spec fn without_key<V>(s: Seq<(i32, V)>, key: i32) -> Seq<(i32, V)> {
    s.filter(|e: (i32, V)| e.0 != key)
}

/// `s` without the entries whose key is one of `keys`.
pub open spec fn without_keys<V>(s: Seq<(i32, V)>, keys: Seq<i32>) -> Seq<(i32, V)> {
    s.filter(|e: (i32, V)| !keys.contains(e.0))
}

fn has_key(keys: &Vec<i32>, k: i32) -> (r: bool)
    ensures
        r == keys@.contains(k),
{
    let mut j: usize = 0;
    while j < keys.len()
        invariant
            j <= keys@.len(),
            forall|q: int| 0 <= q < j ==> keys@[q] != k,
        decreases keys@.len() - j,
    {
        if keys[j] == k {
            assert(keys@[j as int] == k);
            return true;
        }
        j = j + 1;
    }
    false
}

/// Drop the entries of `table` whose key is one of `keys`.
pub fn remove_keys<T: TableValue>(table: &mut PropTable<T>, keys: &Vec<i32>)
    ensures
        final(table).model() == without_keys(old(table).model(), keys@),
{
    let ghost m = old(table).model();
    let mut kept: Vec<(i32, T)> = Vec::new();
    let mut j: usize = 0;
    while j < table.entries.len()
        invariant
            j <= m.len(),
            table.model() == m,
            crate::seqcodec::models::<(i32, T)>(kept@) == without_keys(m.take(j as int), keys@),
        decreases m.len() - j,
    {
        let ghost e = m[j as int];
        assert(e == table.entries@[j as int].model());
        proof {
            let f = |e: (i32, T::Model)| !keys@.contains(e.0);
            assert(m.take(j + 1).drop_last() =~= m.take(j as int));
            reveal(Seq::filter);
        }
        if !has_key(keys, table.entries[j].0) {
            kept.push((table.entries[j].0, table.entries[j].1.duplicate()));
        }
        j = j + 1;
        assert(crate::seqcodec::models::<(i32, T)>(kept@) =~= without_keys(m.take(j as int), keys@));
    }
    assert(m.take(j as int) =~= m);
    table.entries = kept;
}

/// Drop the entries of `table` whose key is `key`.
pub fn remove_key<T: TableValue>(table: &mut PropTable<T>, key: i32)
    ensures
        final(table).model() == without_keys(old(table).model(), seq![key]),
{
    let keys = vec![key];
    assert(keys@ =~= seq![key]);
    remove_keys(table, &keys);
}

/// A table with `key` set to `v`: the first entry with the key takes the
/// value, or a new entry goes at the end.
pub open spec fn with_value<V>(s: Seq<(i32, V)>, key: i32, v: V) -> Seq<(i32, V)> {
    match first_with_key(s, key) {
        Some(i) => s.update(i, (key, v)),
        None => s.push((key, v)),
    }
}

fn find_key<T>(entries: &Vec<(i32, T)>, key: i32) -> (r: Option<usize>)
    ensures
        match r {
            Some(i) => i < entries@.len() && entries@[i as int].0 == key && forall|j: int|
                0 <= j < i ==> entries@[j].0 != key,
            None => forall|j: int| 0 <= j < entries@.len() ==> entries@[j].0 != key,
        },
{
    let mut i: usize = 0;
    while i < entries.len()
        invariant
            i <= entries@.len(),
            forall|j: int| 0 <= j < i ==> entries@[j].0 != key,
        decreases entries@.len() - i,
    {
        if entries[i].0 == key {
            return Some(i);
        }
        i = i + 1;
    }
    None
}

/// `m` with its int table replaced.
pub open spec fn with_ints(m: ZdoModel, ints: Seq<(i32, i32)>) -> ZdoModel {
    ZdoModel { ints, ..m }
}

/// `m` with its byte-array table replaced.
pub open spec fn with_byte_arrays(m: ZdoModel, byte_arrays: Seq<(i32, Seq<u8>)>) -> ZdoModel {
    ZdoModel { byte_arrays, ..m }
}

/// `m` with its string table replaced.
pub open spec fn with_strings(m: ZdoModel, strings: Seq<(i32, Seq<char>)>) -> ZdoModel {
    ZdoModel { strings, ..m }
}

/// Set the int property `key` of `zdo` to `value`.
pub fn set_int(zdo: &mut Zdo, key: i32, value: i32)
    ensures
        final(zdo).model() == with_ints(old(zdo).model(), with_value(old(zdo).model().ints, key, value)),
{
    let ghost m = old(zdo).model().ints;
    match find_key(&zdo.ints.entries, key) {
        Some(i) => {
            proof {
                crate::zdo::lemma_first_with_key_at_pub(m, key, i as int);
            }
            zdo.ints.entries.set(i, (key, value));
        },
        None => {
            zdo.ints.entries.push((key, value));
        },
    }
    assert(zdo.model().ints =~= with_value(m, key, value));
}

/// Set the byte-array property `key` of `zdo` to `data`.
pub fn set_bytes(zdo: &mut Zdo, key: i32, data: Vec<u8>)
    ensures
        final(zdo).model() == with_byte_arrays(
            old(zdo).model(),
            with_value(old(zdo).model().byte_arrays, key, data@),
        ),
{
    let ghost m = old(zdo).model().byte_arrays;
    let ghost dv = data@;
    match find_key(&zdo.byte_arrays.entries, key) {
        Some(i) => {
            proof {
                crate::zdo::lemma_first_with_key_at_pub(m, key, i as int);
            }
            zdo.byte_arrays.entries.set(i, (key, ByteArray { data }));
        },
        None => {
            zdo.byte_arrays.entries.push((key, ByteArray { data }));
        },
    }
    assert(zdo.model().byte_arrays =~= with_value(m, key, dv));
}

// ---------------------------------------------------------------- prefab strings

/// What hashing the prefab string under `key` leaves: the string goes, and
/// unless it was empty its hash is stored as an int.
pub open spec fn hashed_prefab(m: ZdoModel, key: i32) -> ZdoModel {
    match first_value(m.strings, key) {
        None => m,
        Some(name) => {
            let m2 = with_strings(m, without_keys(m.strings, seq![key]));
            if name.len() == 0 {
                m2
            } else {
                with_ints(m2, with_value(m.ints, key, spec_stable_hash(name)))
            }
        },
    }
}

proof fn lemma_first_key_exists<V>(s: Seq<(i32, V)>, key: i32, i: int)
    requires
        0 <= i < s.len(),
        s[i].0 == key,
    ensures
        exists|m: int| 0 <= m <= i && s[m].0 == key && forall|j: int| 0 <= j < m ==> s[j].0 != key,
    decreases i,
{
    if exists|j: int| 0 <= j < i && s[j].0 == key {
        let j = choose|j: int| 0 <= j < i && s[j].0 == key;
        lemma_first_key_exists(s, key, j);
    } else {
        assert(0 <= i <= i && s[i].0 == key && forall|j: int| 0 <= j < i ==> s[j].0 != key);
    }
}

/// What `first_with_key` gives: the first index holding `key`, or none
/// when no entry holds it.
proof fn lemma_first_with_key<V>(s: Seq<(i32, V)>, key: i32)
    ensures
        match first_with_key(s, key) {
            Some(i) => 0 <= i < s.len() && s[i].0 == key && forall|j: int| 0 <= j < i ==> s[j].0 != key,
            None => forall|j: int| 0 <= j < s.len() ==> s[j].0 != key,
        },
{
    if exists|i: int| 0 <= i < s.len() && s[i].0 == key {
        let i = choose|i: int| 0 <= i < s.len() && s[i].0 == key;
        lemma_first_key_exists(s, key, i);
    }
}

/// The first value under `k` once `x` is added at the end.
proof fn lemma_first_value_push<V>(s: Seq<(i32, V)>, x: (i32, V), k: i32)
    ensures
        first_value(s.push(x), k) == match first_value(s, k) {
            Some(v) => Some(v),
            None => if x.0 == k {
                Some(x.1)
            } else {
                None
            },
        },
{
    let t = s.push(x);
    lemma_first_with_key(s, k);
    match first_with_key(s, k) {
        Some(i) => {
            assert(forall|j: int| 0 <= j < i ==> t[j] == s[j]);
            crate::zdo::lemma_first_with_key_at_pub(t, k, i);
        },
        None => {
            assert(forall|j: int| 0 <= j < s.len() ==> s[j].0 != k);
            if x.0 == k {
                assert(forall|j: int| 0 <= j < s.len() ==> t[j] == s[j]);
                crate::zdo::lemma_first_with_key_at_pub(t, k, s.len() as int);
            } else {
                assert(forall|j: int| 0 <= j < t.len() ==> t[j].0 != k) by {
                    assert forall|j: int| 0 <= j < t.len() implies t[j].0 != k by {
                        if j < s.len() {
                            assert(t[j] == s[j]);
                        }
                    }
                }
            }
        },
    }
}

/// Dropping every entry under `key` leaves none under it, and the first
/// value under any other key as it was.
proof fn lemma_first_value_without<V>(s: Seq<(i32, V)>, key: i32, k: i32)
    ensures
        first_value(without_keys(s, seq![key]), key) is None,
        k != key ==> first_value(without_keys(s, seq![key]), k) == first_value(s, k),
    decreases s.len(),
{
    reveal(Seq::filter);
    if s.len() == 0 {
        assert(without_keys(s, seq![key]) =~= Seq::<(i32, V)>::empty());
    } else {
        lemma_first_value_without(s.drop_last(), key, k);
        let p = without_keys(s.drop_last(), seq![key]);
        assert(s.drop_last().push(s.last()) =~= s);
        assert(seq![key].contains(s.last().0) == (s.last().0 == key)) by {
            if s.last().0 == key {
                assert(seq![key][0] == key);
            }
        }
        if s.last().0 == key {
            assert(without_keys(s, seq![key]) == p);
            lemma_first_value_push(s.drop_last(), s.last(), k);
        } else {
            assert(without_keys(s, seq![key]) == p.push(s.last()));
            lemma_first_value_push(p, s.last(), key);
            lemma_first_value_push(p, s.last(), k);
            lemma_first_value_push(s.drop_last(), s.last(), k);
        }
    }
}

/// Setting `key` to `v` makes `v` its first value and leaves the first
/// value under any other key as it was.
proof fn lemma_first_value_with<V>(s: Seq<(i32, V)>, key: i32, v: V, k: i32)
    ensures
        first_value(with_value(s, key, v), key) == Some(v),
        k != key ==> first_value(with_value(s, key, v), k) == first_value(s, k),
{
    let t = with_value(s, key, v);
    lemma_first_with_key(s, key);
    lemma_first_with_key(s, k);
    match first_with_key(s, key) {
        Some(i) => {
            crate::zdo::lemma_first_with_key_at_pub(t, key, i);
            if k != key {
                match first_with_key(s, k) {
                    Some(j) => {
                        assert(0 <= j < s.len() && s[j].0 == k && forall|q: int| 0 <= q < j ==> s[q].0 != k);
                        assert(t[j] == s[j]);
                        assert forall|q: int| 0 <= q < j implies t[q].0 != k by {
                            if q != i {
                                assert(t[q] == s[q]);
                            }
                        }
                        crate::zdo::lemma_first_with_key_at_pub(t, k, j);
                    },
                    None => {
                        assert forall|q: int| 0 <= q < t.len() implies t[q].0 != k by {
                            if q != i {
                                assert(t[q] == s[q]);
                            }
                        }
                    },
                }
            }
        },
        None => {
            lemma_first_value_push(s, (key, v), key);
            lemma_first_value_push(s, (key, v), k);
        },
    }
}

/// What a lookup gives after [`hashed_prefab`]: with no string under `key`
/// nothing changes; else no string is left under `key`, an empty name
/// leaves the ints as they were and any other name is its stable hash
/// under `key`, and every other key of the string and int tables, and
/// every other table, is as it was.
pub proof fn lemma_hashed_prefab_lookups(m: ZdoModel, key: i32, k: i32)
    ensures
        first_value(m.strings, key) is None ==> hashed_prefab(m, key) == m,
        first_value(m.strings, key) matches Some(n) ==> {
            &&& first_value(hashed_prefab(m, key).strings, key) is None
            &&& n.len() == 0 ==> hashed_prefab(m, key).ints == m.ints
            &&& n.len() > 0 ==> first_value(hashed_prefab(m, key).ints, key) == Some(spec_stable_hash(n))
        },
        k != key ==> first_value(hashed_prefab(m, key).strings, k) == first_value(m.strings, k),
        k != key ==> first_value(hashed_prefab(m, key).ints, k) == first_value(m.ints, k),
        hashed_prefab(m, key).floats == m.floats,
        hashed_prefab(m, key).vec3s == m.vec3s,
        hashed_prefab(m, key).quats == m.quats,
        hashed_prefab(m, key).longs == m.longs,
        hashed_prefab(m, key).byte_arrays == m.byte_arrays,
        hashed_prefab(m, key).prefab == m.prefab,
        hashed_prefab(m, key).connection == m.connection,
{
    if let Some(n) = first_value(m.strings, key) {
        lemma_first_value_without(m.strings, key, k);
        if n.len() > 0 {
            lemma_first_value_with(m.ints, key, spec_stable_hash(n), k);
        }
    }
}

/// Replace the prefab name stored as a string under `key` with the hash 1.0
/// reads, as `ZDOMan.ConvertPrefabStrings` does, and report the name it
/// converted. An empty string is dropped without leaving an int behind,
/// which is how the game spells "no item here".
pub fn hash_prefab_string(zdo: &mut Zdo, key: i32) -> (r: Option<String>)
    ensures
        final(zdo).model() == hashed_prefab(old(zdo).model(), key),
        match r {
            Some(n) => first_value(old(zdo).model().strings, key) == Some(n@) && n@.len() > 0,
            None => match first_value(old(zdo).model().strings, key) {
                Some(n) => n.len() == 0,
                None => true,
            },
        },
{
    let name = match zdo.string(key) {
        Some(s) => String::from_str(s),
        None => {
            return None;
        },
    };
    remove_key(&mut zdo.strings, key);
    if name.as_str().is_empty() {
        return None;
    }
    let h = stable_hash(name.as_str());
    set_int(zdo, key, h);
    Some(name)
}

// ---------------------------------------------------------------- items from keys

/// A string property, or the empty string.
pub open spec fn string_or_empty(m: ZdoModel, key: i32) -> Seq<char> {
    match first_value(m.strings, key) {
        Some(s) => s,
        None => seq![],
    }
}

/// An int property, or `d`.
pub open spec fn int_or(m: ZdoModel, key: i32, d: i32) -> i32 {
    match first_value(m.ints, key) {
        Some(v) => v,
        None => d,
    }
}

/// The custom data pairs `data_<i>` / `data__<i>` for `i` below `n`.
pub open spec fn custom_entries(m: ZdoModel, prefix: Seq<char>, n: int) -> Seq<(Seq<char>, Seq<char>)>
    decreases n,
{
    if n <= 0 {
        seq![]
    } else {
        let i = decimal((n - 1) as nat);
        custom_entries(m, prefix, n - 1).push(
            (
                string_or_empty(m, key_of(prefix, "data_"@ + i)),
                string_or_empty(m, key_of(prefix, "data__"@ + i)),
            ),
        )
    }
}

/// An item made of the given values, with fields at their defaults left
/// out as `ItemData.Save` leaves them out.
pub open spec fn assemble_item(
    durability: i32,
    world_level: i32,
    picked_up: bool,
    quality: i32,
    stack: i32,
    variant: i32,
    crafter_id: i64,
    crafter_name: Seq<char>,
    prefab: Option<Seq<char>>,
    custom: Seq<(Seq<char>, Seq<char>)>,
    cheated: bool,
) -> CompactModel {
    CompactModel {
        durability_hundredths: durability,
        grid_x: 0,
        grid_y: 0,
        world_level: world_level as u8,
        picked_up,
        equipped: false,
        quality: if quality as u16 != 1 {
            Some(quality as u16)
        } else {
            None
        },
        stack: if stack as u16 != 1 {
            Some(stack as u16)
        } else {
            None
        },
        variant: if variant != 0 {
            Some(variant)
        } else {
            None
        },
        crafter: if crafter_id != 0 {
            Some((crafter_id, crafter_name))
        } else {
            None
        },
        prefab_hash: match prefab {
            Some(n) => Some(spec_stable_hash(n)),
            None => None,
        },
        custom_data: if custom.len() > 0 {
            Some(custom)
        } else {
            None
        },
        cheated_flags: Some(
            if cheated {
                1u8
            } else {
                0u8
            },
        ),
    }
}

/// The item an object's `prefix` keys describe, with the given durability in
/// hundredths (`ZDOMan.ConvertInventories`): `None` when there is no
/// `stack`.
pub open spec fn item_from_model(
    m: ZdoModel,
    prefix: Seq<char>,
    prefab: Option<Seq<char>>,
    version: i32,
    durability: i32,
) -> Option<CompactModel> {
    match first_value(m.ints, key_of(prefix, "stack"@)) {
        None => None,
        Some(stack) => Some(
            assemble_item(
                durability,
                int_or(m, key_of(prefix, "worldLevel"@), 0),
                int_or(m, key_of(prefix, "pickedUp"@), 0) != 0,
                int_or(m, key_of(prefix, "quality"@), 1),
                stack,
                int_or(m, key_of(prefix, "variant"@), 0),
                match first_value(m.longs, key_of(prefix, "crafterID"@)) {
                    Some(v) => v,
                    None => 0,
                },
                string_or_empty(m, key_of(prefix, "crafterName"@)),
                prefab,
                custom_entries(m, prefix, int_or(m, key_of(prefix, "dataCount"@), 0) as int),
                (version == 38 || version == 39) && int_or(m, key_of(prefix, "cheated"@), 0) != 0,
            ),
        ),
    }
}

fn build_item(
    durability: i32,
    world_level: i32,
    picked_up: bool,
    quality: i32,
    stack: i32,
    variant: i32,
    crafter_id: i64,
    crafter_name: String,
    prefab: Option<&str>,
    custom: Vec<StringStringEntry>,
    cheated: bool,
) -> (it: CompactItem)
    ensures
        it.model() == assemble_item(
            durability,
            world_level,
            picked_up,
            quality,
            stack,
            variant,
            crafter_id,
            crafter_name@,
            match prefab {
                Some(n) => Some(n@),
                None => None,
            },
            crate::seqcodec::models::<StringStringEntry>(custom@),
            cheated,
        ),
{
    let q16 = quality as u16;
    let s16 = stack as u16;
    let n = custom.len();
    CompactItem {
        durability_hundredths: durability,
        grid_x: 0,
        grid_y: 0,
        world_level: world_level as u8,
        picked_up,
        equipped: false,
        quality: if q16 != 1 {
            Some(q16)
        } else {
            None
        },
        stack: if s16 != 1 {
            Some(s16)
        } else {
            None
        },
        variant: if variant != 0 {
            Some(variant)
        } else {
            None
        },
        crafter: if crafter_id != 0 {
            Some(Crafter { id: crafter_id, name: CsString(crafter_name) })
        } else {
            None
        },
        prefab_hash: match prefab {
            Some(p) => Some(stable_hash(p)),
            None => None,
        },
        custom_data: if n > 0 {
            Some(PackedStringMap { entries: custom })
        } else {
            None
        },
        cheated_flags: Some(
            if cheated {
                1u8
            } else {
                0u8
            },
        ),
    }
}

fn read_custom(zdo: &Zdo, prefix: &str, data_count: i32) -> (custom: Vec<StringStringEntry>)
    ensures
        crate::seqcodec::models::<StringStringEntry>(custom@) == custom_entries(zdo.model(), prefix@, data_count as int),
{
    let ghost m = zdo.model();
    let mut custom: Vec<StringStringEntry> = Vec::new();
    let mut i: i32 = 0;
    if data_count <= 0 {
        assert(custom@.len() == 0);
        assert(crate::seqcodec::models::<StringStringEntry>(custom@) =~= seq![]);
        return custom;
    }
    while i < data_count
        invariant
            0 <= i <= data_count,
            m == zdo.model(),
            crate::seqcodec::models::<StringStringEntry>(custom@) == custom_entries(m, prefix@, i as int),
        decreases data_count - i,
    {
        proof {
            reveal_strlit("data_");
            reveal_strlit("data__");
        }
        let mut k1 = String::from_str("data_");
        push_decimal(&mut k1, i as u64);
        let mut k2 = String::from_str("data__");
        push_decimal(&mut k2, i as u64);
        let key = string_value(zdo, prefixed_key(prefix, k1.as_str()));
        let value = string_value(zdo, prefixed_key(prefix, k2.as_str()));
        custom.push(StringStringEntry { key: CsString(key), value: CsString(value) });
        i = i + 1;
        assert(crate::seqcodec::models::<StringStringEntry>(custom@) =~= custom_entries(m, prefix@, i as int));
    }
    custom
}

/// The float bit pattern the durability is read from: the stored one, or
/// 1.0 when there is none.
pub open spec fn durability_bits(m: ZdoModel, prefix: Seq<char>) -> u32 {
    match first_value(m.floats, key_of(prefix, "durability"@)) {
        Some(b) => b,
        None => 0x3F80_0000,
    }
}

fn string_value(zdo: &Zdo, key: i32) -> (s: String)
    ensures
        s@ == string_or_empty(zdo.model(), key),
{
    match zdo.string(key) {
        Some(s) => String::from_str(s),
        None => String::new(),
    }
}

fn int_value_or(zdo: &Zdo, key: i32, d: i32) -> (v: i32)
    ensures
        v == int_or(zdo.model(), key, d),
{
    match zdo.int_value(key) {
        Some(v) => v,
        None => d,
    }
}

/// The item data 0.221 stored as separate keys, read off an object.
/// `prefix` is empty for an item lying in the world and `<n>_` for slot `n`
/// of an armor stand; `prefab_name` is the drop prefab, known only for a
/// slot. `None` when there is no such item, which `stack` decides.
/// `hundredths` turns the durability's float bit pattern into hundredths
/// (`(int)(m_durability * 100f)`).
pub fn item_from_keys<F: Fn(u32) -> i32>(
    zdo: &Zdo,
    prefix: &str,
    prefab_name: Option<&str>,
    world_version: i32,
    hundredths: &F,
) -> (r: Option<CompactItem>)
    requires
        forall|b: u32| call_requires(*hundredths, (b,)),
    ensures
        match r {
            Some(it) => call_ensures(*hundredths, (durability_bits(zdo.model(), prefix@),), it.durability_hundredths)
                && item_from_model(
                zdo.model(),
                prefix@,
                match prefab_name {
                    Some(n) => Some(n@),
                    None => None,
                },
                world_version,
                it.durability_hundredths,
            ) == Some(it.model()),
            None => first_value(zdo.model().ints, key_of(prefix@, "stack"@)) is None,
        },
{
    proof {
        reveal_strlit("stack");
        reveal_strlit("quality");
        reveal_strlit("variant");
        reveal_strlit("crafterID");
        reveal_strlit("crafterName");
        reveal_strlit("dataCount");
        reveal_strlit("cheated");
        reveal_strlit("durability");
        reveal_strlit("worldLevel");
        reveal_strlit("pickedUp");
    }
    let ghost m = zdo.model();
    let stack = match zdo.int_value(prefixed_key(prefix, "stack")) {
        Some(s) => s,
        None => {
            return None;
        },
    };
    let quality = int_value_or(zdo, prefixed_key(prefix, "quality"), 1);
    let variant = int_value_or(zdo, prefixed_key(prefix, "variant"), 0);
    let crafter_id = match zdo.long(prefixed_key(prefix, "crafterID")) {
        Some(v) => v,
        None => 0,
    };
    let crafter_name = string_value(zdo, prefixed_key(prefix, "crafterName"));
    let data_count = int_value_or(zdo, prefixed_key(prefix, "dataCount"), 0);
    let custom = read_custom(zdo, prefix, data_count);
    let cheated = (world_version == 38 || world_version == 39) && int_value_or(
        zdo,
        prefixed_key(prefix, "cheated"),
        0,
    ) != 0;
    let bits = match zdo.float(prefixed_key(prefix, "durability")) {
        Some(b) => b,
        None => 0x3F80_0000,
    };
    let durability = hundredths(bits);
    let world_level = int_value_or(zdo, prefixed_key(prefix, "worldLevel"), 0);
    let picked_up = int_value_or(zdo, prefixed_key(prefix, "pickedUp"), 0) != 0;
    let item = build_item(
        durability,
        world_level,
        picked_up,
        quality,
        stack,
        variant,
        crafter_id,
        crafter_name,
        prefab_name,
        custom,
        cheated,
    );
    Some(item)
}


// ---------------------------------------------------------------- storing items

/// The int keys `store_item` drops: the ones the item was built from, with
/// `quality` and `variant` kept where the item holds them.
pub open spec fn item_int_keys(prefix: Seq<char>, m: CompactModel) -> Seq<i32> {
    seq![
        key_of(prefix, "stack"@),
        key_of(prefix, "dataCount"@),
        key_of(prefix, "worldLevel"@),
        key_of(prefix, "pickedUp"@),
        key_of(prefix, "cheated"@),
    ] + (if m.quality is None {
        seq![key_of(prefix, "quality"@)]
    } else {
        seq![]
    }) + (if m.variant is None {
        seq![key_of(prefix, "variant"@)]
    } else {
        seq![]
    })
}

/// The keys of the first `n` custom data pairs.
pub open spec fn data_keys(prefix: Seq<char>, n: nat) -> Seq<i32>
    decreases n,
{
    if n == 0 {
        seq![]
    } else {
        let i = decimal((n - 1) as nat);
        data_keys(prefix, (n - 1) as nat) + seq![
            key_of(prefix, "data_"@ + i),
            key_of(prefix, "data__"@ + i),
        ]
    }
}

/// How many custom data pairs an item holds.
pub open spec fn custom_count(m: CompactModel) -> nat {
    match m.custom_data {
        Some(d) => d.len(),
        None => 0,
    }
}

/// The string keys `store_item` drops.
pub open spec fn item_string_keys(prefix: Seq<char>, m: CompactModel) -> Seq<i32> {
    seq![key_of(prefix, "crafterName"@)] + data_keys(prefix, custom_count(m))
}

/// An object with `item` stored under `<prefix>itemData` at the current
/// item-data version and the separate keys it was built from dropped.
pub open spec fn stored_item(z: ZdoModel, prefix: Seq<char>, m: CompactModel) -> ZdoModel {
    ZdoModel {
        byte_arrays: with_value(
            z.byte_arrays,
            key_of(prefix, "itemData"@),
            ser_single(INVENTORY_CURRENT as u8, m),
        ),
        ints: without_keys(z.ints, item_int_keys(prefix, m)),
        floats: without_keys(z.floats, seq![key_of(prefix, "durability"@)]),
        longs: without_keys(z.longs, seq![key_of(prefix, "crafterID"@)]),
        strings: without_keys(z.strings, item_string_keys(prefix, m)),
        ..z
    }
}

/// Whether `item` can be written as an item-data blob: its crafter name and
/// custom data fit their length prefixes.
pub open spec fn storable(m: CompactModel) -> bool {
    opt_encodable::<Crafter>(m.crafter) && opt_encodable::<PackedStringMap>(m.custom_data)
}

/// Store `item` under `<prefix>itemData` and drop the separate keys it was
/// built from, as `ZDOMan.ConvertInventories` does: `quality` and `variant`
/// stay as ints when the item holds them, since `SaveToZDO` only writes them
/// on change.
#[verifier::rlimit(20)]
pub fn store_item(zdo: &mut Zdo, prefix: &str, item: &CompactItem)
    requires
        storable(item.model()),
    ensures
        final(zdo).model() == stored_item(old(zdo).model(), prefix@, item.model()),
{
    proof {
        reveal_strlit("stack");
        reveal_strlit("quality");
        reveal_strlit("variant");
        reveal_strlit("crafterID");
        reveal_strlit("crafterName");
        reveal_strlit("dataCount");
        reveal_strlit("cheated");
        reveal_strlit("durability");
        reveal_strlit("worldLevel");
        reveal_strlit("pickedUp");
        reveal_strlit("itemData");
        reveal_strlit("data_");
        reveal_strlit("data__");
    }
    let ghost z0 = old(zdo).model();
    let ghost m = item.model();
    let blob = single_bytes(INVENTORY_CURRENT as u8, item);
    set_bytes(zdo, prefixed_key(prefix, "itemData"), blob);
    let data_count: usize = match &item.custom_data {
        Some(d) => d.entries.len(),
        None => 0,
    };
    assert(data_count == custom_count(m));
    let mut drop_ints: Vec<i32> = Vec::new();
    drop_ints.push(prefixed_key(prefix, "stack"));
    drop_ints.push(prefixed_key(prefix, "dataCount"));
    drop_ints.push(prefixed_key(prefix, "worldLevel"));
    drop_ints.push(prefixed_key(prefix, "pickedUp"));
    drop_ints.push(prefixed_key(prefix, "cheated"));
    if item.quality.is_none() {
        drop_ints.push(prefixed_key(prefix, "quality"));
    }
    if item.variant.is_none() {
        drop_ints.push(prefixed_key(prefix, "variant"));
    }
    assert(drop_ints@ =~= item_int_keys(prefix@, m));
    remove_keys(&mut zdo.ints, &drop_ints);
    remove_key(&mut zdo.floats, prefixed_key(prefix, "durability"));
    remove_key(&mut zdo.longs, prefixed_key(prefix, "crafterID"));
    let mut drop_strings: Vec<i32> = Vec::new();
    drop_strings.push(prefixed_key(prefix, "crafterName"));
    let mut i: usize = 0;
    while i < data_count
        invariant
            i <= data_count,
            drop_strings@ == seq![key_of(prefix@, "crafterName"@)] + data_keys(prefix@, i as nat),
        decreases data_count - i,
    {
        let mut k1 = String::from_str("data_");
        push_decimal(&mut k1, i as u64);
        let mut k2 = String::from_str("data__");
        push_decimal(&mut k2, i as u64);
        drop_strings.push(prefixed_key(prefix, k1.as_str()));
        drop_strings.push(prefixed_key(prefix, k2.as_str()));
        i = i + 1;
        assert(drop_strings@ =~= seq![key_of(prefix@, "crafterName"@)] + data_keys(prefix@, i as nat));
    }
    remove_keys(&mut zdo.strings, &drop_strings);
    assert(zdo.model() =~= stored_item(z0, prefix@, m));
}


// ---------------------------------------------------------------- the migration

/// Whether `f` gives one result for each argument.
pub open spec fn functional<F: Fn(u32) -> i32>(f: F) -> bool {
    forall|b: u32, r1: i32, r2: i32|
        #![trigger call_ensures(f, (b,), r1), call_ensures(f, (b,), r2)]
        call_ensures(f, (b,), r1) && call_ensures(f, (b,), r2) ==> r1 == r2
}

/// What `f` gives for `b`.
pub open spec fn result_of<F: Fn(u32) -> i32>(f: F, b: u32) -> i32 {
    choose|r: i32| call_ensures(f, (b,), r)
}

/// The durability conversion `f` stands for.
pub open spec fn dur_of<F: Fn(u32) -> i32>(f: F) -> spec_fn(u32) -> i32 {
    |b: u32| result_of(f, b)
}

/// A borrowed name as plain text.
pub open spec fn name_view(o: Option<&str>) -> Option<Seq<char>> {
    match o {
        Some(n) => Some(n@),
        None => None,
    }
}

/// The item the `prefix` keys of `m` describe, its durability in hundredths
/// given by `dur` of the stored bit pattern.
pub open spec fn item_at(
    m: ZdoModel,
    prefix: Seq<char>,
    prefab: Option<Seq<char>>,
    version: i32,
    dur: spec_fn(u32) -> i32,
) -> Option<CompactModel> {
    item_from_model(m, prefix, prefab, version, dur(durability_bits(m, prefix)))
}

/// `m` with the item at `prefix` folded into its blob. An item whose blob
/// cannot be written (a crafter name or custom data too long for its length
/// prefix) keeps its separate keys.
pub open spec fn folded(
    m: ZdoModel,
    prefix: Seq<char>,
    prefab: Option<Seq<char>>,
    version: i32,
    dur: spec_fn(u32) -> i32,
) -> ZdoModel {
    match item_at(m, prefix, prefab, version, dur) {
        Some(it) => if storable(it) {
            stored_item(m, prefix, it)
        } else {
            m
        },
        None => m,
    }
}

/// `m` with armor-stand slot `n` folded, when the slot names an item.
pub open spec fn slot_folded(m: ZdoModel, n: nat, version: i32, dur: spec_fn(u32) -> i32) -> ZdoModel {
    match first_value(m.strings, key_of(slot_prefix(n), "item"@)) {
        Some(name) => if name.len() > 0 {
            folded(m, slot_prefix(n), Some(name), version, dur)
        } else {
            m
        },
        None => m,
    }
}

/// `m` with slots `0` to `k - 1` folded, in that order.
pub open spec fn slots_folded(m: ZdoModel, k: nat, version: i32, dur: spec_fn(u32) -> i32) -> ZdoModel
    decreases k,
{
    if k == 0 {
        m
    } else {
        slot_folded(slots_folded(m, (k - 1) as nat, version, dur), (k - 1) as nat, version, dur)
    }
}

/// `m` with the prefab strings under `keys` hashed, in order.
pub open spec fn prefabs_hashed(m: ZdoModel, keys: Seq<i32>) -> ZdoModel
    decreases keys.len(),
{
    if keys.len() == 0 {
        m
    } else {
        hashed_prefab(prefabs_hashed(m, keys.drop_last()), keys.last())
    }
}

/// The keys that name a prefab: `Content`, `item` and every `<n>_item`.
pub open spec fn prefab_keys() -> Seq<i32> {
    seq![spec_stable_hash("Content"@), spec_stable_hash("item"@)] + Seq::new(
        ITEM_SLOTS as nat,
        |n: int| key_of(slot_prefix(n as nat), "item"@),
    )
}

fn fold_item<F: Fn(u32) -> i32>(
    zdo: &mut Zdo,
    prefix: &str,
    prefab: Option<&str>,
    version: i32,
    hundredths: &F,
)
    requires
        forall|b: u32| call_requires(*hundredths, (b,)),
        functional(*hundredths),
    ensures
        final(zdo).model() == folded(
            old(zdo).model(),
            prefix@,
            name_view(prefab),
            version,
            dur_of(*hundredths),
        ),
{
    let ghost m = zdo.model();
    let ghost dur = dur_of(*hundredths);
    match item_from_keys(zdo, prefix, prefab, version, hundredths) {
        Some(item) => {
            proof {
                let bits = durability_bits(m, prefix@);
                assert(call_ensures(*hundredths, (bits,), item.durability_hundredths));
                assert(call_ensures(*hundredths, (bits,), result_of(*hundredths, bits)));
                assert(dur(bits) == item.durability_hundredths);
            }
            if item_fits(&item) {
                store_item(zdo, prefix, &item);
            }
        },
        None => {},
    }
}

/// `ZDOMan.ConvertInventories`, first half: an object carrying an
/// `int:stack` is an item lying in the world, and its keys fold into its
/// `itemData` blob. Its blob names no drop prefab: the object's own prefab
/// is the item.
pub fn convert_item_keys<F: Fn(u32) -> i32>(zdo: &mut Zdo, world_version: i32, hundredths: &F)
    requires
        forall|b: u32| call_requires(*hundredths, (b,)),
        functional(*hundredths),
    ensures
        final(zdo).model() == folded(
            old(zdo).model(),
            seq![],
            None,
            world_version,
            dur_of(*hundredths),
        ),
{
    proof {
        reveal_strlit("");
    }
    assert(""@ =~= Seq::<char>::empty());
    fold_item(zdo, "", None, world_version, hundredths);
}

/// Fold each armor-stand slot that names an item into `<n>_itemData`, which
/// is what 1.0 reads when the item is taken down. Runs before the prefab
/// strings are hashed, so `<n>_item` still names the prefab.
pub fn convert_armor_stand_slots<F: Fn(u32) -> i32>(zdo: &mut Zdo, world_version: i32, hundredths: &F)
    requires
        forall|b: u32| call_requires(*hundredths, (b,)),
        functional(*hundredths),
    ensures
        final(zdo).model() == slots_folded(
            old(zdo).model(),
            ITEM_SLOTS as nat,
            world_version,
            dur_of(*hundredths),
        ),
{
    let ghost m0 = zdo.model();
    let ghost dur = dur_of(*hundredths);
    let mut n: usize = 0;
    while n < ITEM_SLOTS
        invariant
            n <= ITEM_SLOTS,
            forall|b: u32| call_requires(*hundredths, (b,)),
            functional(*hundredths),
            dur == dur_of(*hundredths),
            zdo.model() == slots_folded(m0, n as nat, world_version, dur),
        decreases ITEM_SLOTS - n,
    {
        let prefix = slot_prefix_string(n);
        proof {
            reveal_strlit("item");
        }
        let key = prefixed_key(prefix.as_str(), "item");
        let name = match zdo.string(key) {
            Some(s) => Some(String::from_str(s)),
            None => None,
        };
        match name {
            Some(name) => {
                if !name.as_str().is_empty() {
                    fold_item(zdo, prefix.as_str(), Some(name.as_str()), world_version, hundredths);
                }
            },
            None => {},
        }
        n = n + 1;
    }
}

/// The keys that name a prefab: `Content`, `item` and every `<n>_item`.
fn prefab_key_list() -> (keys: Vec<i32>)
    ensures
        keys@ == prefab_keys(),
{
    let mut keys: Vec<i32> = Vec::new();
    keys.push(stable_hash("Content"));
    keys.push(stable_hash("item"));
    let slots = slot_item_keys();
    let mut n: usize = 0;
    while n < ITEM_SLOTS
        invariant
            n <= ITEM_SLOTS,
            slots@.len() == ITEM_SLOTS,
            forall|j: int| 0 <= j < ITEM_SLOTS ==> #[trigger] slots@[j] == key_of(slot_prefix(j as nat), "item"@),
            keys@ == prefab_keys().take(2 + n),
        decreases ITEM_SLOTS - n,
    {
        keys.push(slots[n]);
        n = n + 1;
        assert(keys@ =~= prefab_keys().take(2 + n));
    }
    assert(keys@ =~= prefab_keys());
    keys
}

/// `ZDOMan.ConvertPrefabStrings`, carried past `5_item` to every slot a
/// stand can have: see [`hash_prefab_string`].
pub fn convert_prefab_strings(zdo: &mut Zdo)
    ensures
        final(zdo).model() == prefabs_hashed(old(zdo).model(), prefab_keys()),
{
    let ghost m0 = zdo.model();
    let keys = prefab_key_list();
    let mut i: usize = 0;
    while i < keys.len()
        invariant
            i <= keys@.len(),
            keys@ == prefab_keys(),
            zdo.model() == prefabs_hashed(m0, keys@.take(i as int)),
        decreases keys@.len() - i,
    {
        hash_prefab_string(zdo, keys[i]);
        proof {
            assert(keys@.take(i + 1).drop_last() =~= keys@.take(i as int));
        }
        i = i + 1;
    }
    assert(keys@.take(i as int) =~= keys@);
}


/// `m` with a container's base64 `items` string replaced by the raw package
/// of its inventory in the compact form (`ZDOMan.ConvertInventories`,
/// second half). An empty string is dropped; a string that does not decode
/// to a whole inventory, or whose compact form cannot be written, is left
/// as it is.
pub open spec fn container_converted(m: ZdoModel, dur: spec_fn(u32) -> i32) -> ZdoModel {
    let key = spec_stable_hash("items"@);
    match first_value(m.strings, key) {
        None => m,
        Some(text) => if text.len() == 0 {
            with_strings(m, without_keys(m.strings, seq![key]))
        } else {
            match base64_decoded(text) {
                None => m,
                Some(b) => match parse_inventory(b) {
                    None => m,
                    Some((inv, k)) => {
                        let c = InventoryModel {
                            version: INVENTORY_CURRENT,
                            items: compacted(inv.items, dur),
                        };
                        if k == b.len() && package_writable(c) {
                            with_strings(
                                with_byte_arrays(m, with_value(m.byte_arrays, key, ser_inventory(c))),
                                without_keys(m.strings, seq![key]),
                            )
                        } else {
                            m
                        }
                    },
                },
            }
        },
    }
}

/// `ZDOMan.ConvertInventories`, second half: a container's base64 `items`
/// string becomes a raw package in the compact item format. An empty string
/// is dropped; an inventory the tool cannot decode is left as it is, which
/// is also what the game does with a string that decodes to nothing.
pub fn convert_container<F: Fn(u32) -> i32>(zdo: &mut Zdo, hundredths: &F)
    requires
        forall|b: u32| call_requires(*hundredths, (b,)),
        functional(*hundredths),
    ensures
        final(zdo).model() == container_converted(old(zdo).model(), dur_of(*hundredths)),
{
    proof {
        reveal_strlit("items");
    }
    let ghost m = zdo.model();
    let key = stable_hash("items");
    let text = match zdo.string(key) {
        Some(s) => String::from_str(s),
        None => {
            return;
        },
    };
    if text.as_str().is_empty() {
        remove_key(&mut zdo.strings, key);
        assert(zdo.model() =~= container_converted(m, dur_of(*hundredths)));
        return;
    }
    let inv = match Inventory::from_base64(text.as_str()) {
        Ok(inv) => inv,
        Err(_) => {
            return;
        },
    };
    let c = inv.to_compact(hundredths);
    let bytes = match c.to_bytes() {
        Ok(b) => b,
        Err(_) => {
            return;
        },
    };
    set_bytes(zdo, key, bytes);
    remove_key(&mut zdo.strings, key);
    assert(zdo.model() =~= container_converted(m, dur_of(*hundredths)));
}

/// What migrating an object does: its loose-item keys are folded, then each
/// armor-stand slot's, then a container's inventory is re-encoded, then the
/// prefab strings are hashed.
pub open spec fn migrated(m: ZdoModel, version: i32, dur: spec_fn(u32) -> i32) -> ZdoModel {
    prefabs_hashed(
        container_converted(
            slots_folded(folded(m, seq![], None, version, dur), ITEM_SLOTS as nat, version, dur),
            dur,
        ),
        prefab_keys(),
    )
}

/// Apply every migration to one object read at `world_version`.
/// `hundredths` turns a durability's float bit pattern into hundredths; the
/// `cheated` flag is only picked up from the two versions that stored it as
/// a key.
pub fn migrate_zdo<F: Fn(u32) -> i32>(zdo: &mut Zdo, world_version: i32, hundredths: &F)
    requires
        forall|b: u32| call_requires(*hundredths, (b,)),
        functional(*hundredths),
    ensures
        final(zdo).model() == migrated(old(zdo).model(), world_version, dur_of(*hundredths)),
{
    convert_item_keys(zdo, world_version, hundredths);
    convert_armor_stand_slots(zdo, world_version, hundredths);
    convert_container(zdo, hundredths);
    convert_prefab_strings(zdo);
}

} // verus!
