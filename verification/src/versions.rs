//! Save-format version gates, one named constant per feature. The game guards
//! each field with a version test; here each test gets a name so the codecs
//! read as documentation of when a field appeared.

use vstd::prelude::*;

verus! {

/// `m_worldVersion` of 1.0 (`Version.World.DeepNorth`).
pub const WORLD_CURRENT: i32 = 41;
/// Oldest `.db` this library reads: ZDOs streamed inline with a flags word.
pub const WORLD_MIN_SUPPORTED: i32 = 31;
/// The last version of the single-file `.fwl` + `.db` layout.
pub const WORLD_LEGACY_CURRENT: i32 = 39;
pub const WORLD_GEN_VERSION: i32 = 26;
pub const WORLD_NEEDS_DB: i32 = 30;
pub const WORLD_STARTING_GLOBAL_KEYS: i32 = 32;
/// The `.fwl2` ends with the list of players who have joined the world.
pub const WORLD_PLAYER_HISTORY: i32 = 41;
pub const WORLD_NET_TIME: i32 = 4;
pub const WORLD_ZONE_SYSTEM: i32 = 12;
pub const WORLD_ZONE_PGW_VERSION: i32 = 13;
pub const WORLD_ZONE_GLOBAL_KEYS: i32 = 14;
pub const WORLD_RAND_EVENTS: i32 = 15;
pub const WORLD_ZONE_LOCATIONS: i32 = 18;
pub const WORLD_ZONE_LOCATION_PLACED: i32 = 19;
pub const WORLD_ZONE_LOCATIONS_GENERATED: i32 = 20;
pub const WORLD_ZONE_LOCATION_VERSION: i32 = 21;
pub const WORLD_RAND_EVENT_DETAILS: i32 = 25;
/// ZDOs are streamed inline with a flags word.
pub const WORLD_ZDO_INLINE_STREAM: i32 = 31;
/// Property-table counts use the one-or-two byte `NumItems` encoding.
pub const WORLD_ZDO_WIDE_COUNTS: i32 = 33;
/// `PersistentEventSystem` state may follow the random-event state.
pub const WORLD_PERSISTENT_EVENTS: i32 = 35;
/// The world is a directory of `_main.<N>.*` files and `.chunk` files.
pub const WORLD_CHUNKED_SAVE: i32 = 40;
/// The compact ZDO record: no stored sector, an optional two-short position,
/// and a two-or-four byte rotation.
pub const WORLD_ZDO_COMPACT: i32 = 40;
/// A location instance names its prefab by hash instead of string.
pub const WORLD_LOCATION_HASH: i32 = 40;

/// `m_worldGenVersion` stamped into worlds the current game creates.
pub const WORLD_GEN_CURRENT: i32 = 2;
/// What the game keeps for a `.fwl` that predates `m_worldGenVersion`: the
/// legacy generator, forever.
pub const WORLD_GEN_LEGACY: i32 = 0;
/// The world version the `.chunks` map, the `.ok` marker and every `.chunk`
/// file open with.
pub const CHUNK_VERSION: i32 = 41;

/// `m_playerVersion` of `.fch` files (`Version.Player.DeepNorth`).
pub const PLAYER_CURRENT: i32 = 46;
/// A public-test build that already wrote tiered stats.
pub const PLAYER_ABANDONED_DN: i32 = 44;
/// Stats are stored per difficulty tier.
pub const PLAYER_TIERED_STATS: i32 = 46;

/// The version of the `Player.Save` blob inside a `.fch`.
pub const PLAYER_DATA_CURRENT: i32 = 33;
/// The public-test build that already wrote biome names.
pub const PLAYER_DATA_ABANDONED_DN: i32 = 31;
/// Known biomes are stored by name.
pub const PLAYER_DATA_BIOME_NAMES: i32 = 33;

/// `m_itemDataVersion` of inventories and single items (`Version.Item.ChunksNCheats`).
pub const INVENTORY_CURRENT: i32 = 109;
pub const INVENTORY_QUALITY: i32 = 101;
pub const INVENTORY_VARIANT: i32 = 102;
pub const INVENTORY_CRAFTER: i32 = 103;
pub const INVENTORY_CUSTOM_DATA: i32 = 104;
pub const INVENTORY_WORLD_LEVEL: i32 = 105;
pub const INVENTORY_PICKED_UP: i32 = 106;
/// A public-test build that appended the `cheated` flag to the old layout.
pub const INVENTORY_ABANDONED_DN: i32 = 107;
/// The compact item record with a flags byte and the prefab as a hash.
pub const INVENTORY_COMPACT: i32 = 108;
/// Each item ends with a flags byte carrying `m_cheated`.
pub const INVENTORY_CHEATED: i32 = 109;

/// Whether a profile of this version stores its stats per tier.
pub open spec fn spec_has_tiered_stats(version: i32) -> bool {
    version >= PLAYER_TIERED_STATS || version == PLAYER_ABANDONED_DN
}

/// Whether a profile of this version stores its stats per tier.
pub fn has_tiered_stats(version: i32) -> (r: bool)
    ensures
        r == spec_has_tiered_stats(version),
{
    version >= PLAYER_TIERED_STATS || version == PLAYER_ABANDONED_DN
}

/// Whether the known-biome list of player data of this version holds names.
pub open spec fn spec_has_biome_names(version: i32) -> bool {
    version >= PLAYER_DATA_BIOME_NAMES || version == PLAYER_DATA_ABANDONED_DN
}

/// Whether the known-biome list of player data of this version holds names.
pub fn has_biome_names(version: i32) -> (r: bool)
    ensures
        r == spec_has_biome_names(version),
{
    version >= PLAYER_DATA_BIOME_NAMES || version == PLAYER_DATA_ABANDONED_DN
}

/// Whether items of this version end with the cheated flag.
pub open spec fn spec_has_cheated(version: i32) -> bool {
    version >= INVENTORY_CHEATED || version == INVENTORY_ABANDONED_DN
}

/// Whether items of this version end with the cheated flag.
pub fn has_cheated(version: i32) -> (r: bool)
    ensures
        r == spec_has_cheated(version),
{
    version >= INVENTORY_CHEATED || version == INVENTORY_ABANDONED_DN
}

} // verus!
