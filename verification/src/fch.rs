//! The `.fch` character file around its profile: an `i32` payload length,
//! the payload, an `i32` hash length, and the SHA-512 of the payload; and
//! the names of the player statistics the profile counts, in slot order.

use vstd::prelude::*;
use sha2::Digest;
use crate::chunk_files::FileError;
use crate::text::{decimal, push_decimal, str_eq};
use crate::wire::{append_bytes, Wire};

verus! {

// ---------------------------------------------------------------- the hash

/// The name of the SHA-512 digest `sha2` computes of `b`.
pub uninterp spec fn sha512_of(b: Seq<u8>) -> Seq<u8>;

/// `sha2::Sha512::digest`: the SHA-512 digest of `b`. Claimed: the result
/// is what [`sha512_of`] names, and it is 64 bytes long (the output size of
/// the digest type).
#[verifier::external_body]
fn sha512(b: &[u8]) -> (r: Vec<u8>)
    ensures
        r@ == sha512_of(b@),
        r@.len() == 64,
{
    sha2::Sha512::digest(b).to_vec()
}

// ---------------------------------------------------------------- the envelope

/// The payload and the stored hash of a `.fch` file `b`: a non-negative
/// payload length that fits, the payload, then a non-negative hash length
/// that fits and the hash. Bytes after the hash are not looked at.
pub open spec fn fch_parts(b: Seq<u8>) -> Option<(Seq<u8>, Seq<u8>)> {
    match <i32 as Wire>::wire_parse(b) {
        None => None,
        Some((n, k)) => if n < 0 || k + n > b.len() {
            None
        } else {
            let end = k + n;
            match <i32 as Wire>::wire_parse(b.skip(end)) {
                None => None,
                Some((h, j)) => if h < 0 || end + j + h > b.len() {
                    None
                } else {
                    Some((b.subrange(k, end), b.subrange(end + j, end + j + h)))
                },
            }
        },
    }
}

/// The bytes of a `.fch` file holding payload `p` under hash `h`.
pub open spec fn ser_fch(p: Seq<u8>, h: Seq<u8>) -> Seq<u8> {
    <i32 as Wire>::wire_ser(p.len() as i32) + p + <i32 as Wire>::wire_ser(h.len() as i32) + h
}

/// A `.fch` file opened: its payload, and whether the stored hash is the
/// payload's SHA-512.
pub struct CharacterEnvelope {
    pub payload: Vec<u8>,
    pub hash_ok: bool,
}

/// `b[a..e]` as a vector.
fn copy_range(b: &[u8], a: usize, e: usize) -> (r: Vec<u8>)
    requires
        a <= e <= b@.len(),
    ensures
        r@ == b@.subrange(a as int, e as int),
{
    let mut out: Vec<u8> = Vec::new();
    let mut i = a;
    while i < e
        invariant
            a <= i <= e <= b@.len(),
            out@ == b@.subrange(a as int, i as int),
        decreases e - i,
    {
        out.push(b[i]);
        i = i + 1;
        assert(out@ =~= b@.subrange(a as int, i as int));
    }
    out
}

/// Open a `.fch` file: its payload, and whether the stored SHA-512 matches
/// it. `Malformed` when a length is negative or runs past the end.
pub fn split_character_file(bytes: &[u8]) -> (r: Result<CharacterEnvelope, FileError>)
    ensures
        match r {
            Ok(e) => fch_parts(bytes@) matches Some((p, h)) && e.payload@ == p && e.hash_ok == (sha512_of(p) == h),
            Err(e) => fch_parts(bytes@) is None && e == FileError::Malformed,
        },
{
    let (n, k) = match <i32 as Wire>::read(bytes, 0) {
        Some(x) => x,
        None => {
            assert(bytes@.skip(0) =~= bytes@);
            return Err(FileError::Malformed);
        },
    };
    assert(bytes@.skip(0) =~= bytes@);
    if n < 0 || bytes.len() - k < n as usize {
        return Err(FileError::Malformed);
    }
    let end = k + n as usize;
    let (h, j) = match <i32 as Wire>::read(bytes, end) {
        Some(x) => x,
        None => {
            return Err(FileError::Malformed);
        },
    };
    if h < 0 || bytes.len() - j < h as usize {
        return Err(FileError::Malformed);
    }
    let payload = copy_range(bytes, k, end);
    let stored = copy_range(bytes, j, j + h as usize);
    let digest = sha512(payload.as_slice());
    let mut same = digest.len() == stored.len();
    let mut q: usize = 0;
    while same && q < digest.len()
        invariant
            q <= digest@.len(),
            same ==> digest@.len() == stored@.len(),
            same ==> digest@.take(q as int) == stored@.take(q as int),
            !same ==> digest@ != stored@,
        decreases digest@.len() - q,
    {
        if digest[q] != stored[q] {
            same = false;
        } else {
            assert(digest@.take(q + 1) =~= digest@.take(q as int).push(digest@[q as int]));
            assert(stored@.take(q + 1) =~= stored@.take(q as int).push(stored@[q as int]));
        }
        q = q + 1;
    }
    proof {
        if same {
            assert(digest@ =~= digest@.take(digest@.len() as int));
            assert(stored@ =~= stored@.take(stored@.len() as int));
        }
    }
    Ok(CharacterEnvelope { payload, hash_ok: same })
}

/// The bytes of a `.fch` file holding `payload`, stamped with its SHA-512.
pub fn frame_character_payload(payload: &[u8]) -> (r: Vec<u8>)
    requires
        payload@.len() <= i32::MAX,
    ensures
        r@ == ser_fch(payload@, sha512_of(payload@)),
        r@.len() == payload@.len() + 72,
{
    let digest = sha512(payload);
    let mut out: Vec<u8> = Vec::new();
    (payload.len() as i32).write(&mut out);
    append_bytes(&mut out, payload);
    (digest.len() as i32).write(&mut out);
    append_bytes(&mut out, digest.as_slice());
    proof {
        <i32 as Wire>::lemma_roundtrip(payload@.len() as i32, seq![]);
        <i32 as Wire>::lemma_roundtrip(64, seq![]);
        assert(<i32 as Wire>::wire_ser(payload@.len() as i32) + seq![] =~= <i32 as Wire>::wire_ser(payload@.len() as i32));
        assert(<i32 as Wire>::wire_ser(64) + seq![] =~= <i32 as Wire>::wire_ser(64));
    }
    out
}

/// A `.fch` file framed here opens to its payload and hash.
pub proof fn lemma_fch_roundtrip(p: Seq<u8>, h: Seq<u8>)
    requires
        p.len() <= i32::MAX,
        h.len() <= i32::MAX,
    ensures
        fch_parts(ser_fch(p, h)) == Some((p, h)),
{
    let a = <i32 as Wire>::wire_ser(p.len() as i32);
    let c = <i32 as Wire>::wire_ser(h.len() as i32);
    let b = ser_fch(p, h);
    <i32 as Wire>::lemma_roundtrip(p.len() as i32, p + c + h);
    assert(b =~= a + (p + c + h));
    let end = a.len() + p.len();
    assert(b.skip(end as int) =~= c + h);
    <i32 as Wire>::lemma_roundtrip(h.len() as i32, h);
    assert(b.subrange(a.len() as int, end as int) =~= p);
    assert(b.subrange((end + c.len()) as int, (end + c.len() + h.len()) as int) =~= h);
}

// ---------------------------------------------------------------- statistics

/// `PlayerStatType` names in enum order: the name of stat slot `i` is the
/// `i`-th.
pub open spec fn stat_names() -> Seq<Seq<char>> {
    seq![
        "Deaths"@,
        "CraftsOrUpgrades"@,
        "Builds"@,
        "Jumps"@,
        "Cheats"@,
        "EnemyHits"@,
        "EnemyKills"@,
        "EnemyKillsLastHits"@,
        "PlayerHits"@,
        "PlayerKills"@,
        "HitsTakenEnemies"@,
        "HitsTakenPlayers"@,
        "ItemsPickedUp"@,
        "Crafts"@,
        "Upgrades"@,
        "PortalsUsed"@,
        "DistanceTraveled"@,
        "DistanceWalk"@,
        "DistanceRun"@,
        "DistanceSail"@,
        "DistanceAir"@,
        "TimeInBase"@,
        "TimeOutOfBase"@,
        "Sleep"@,
        "ItemStandUses"@,
        "ArmorStandUses"@,
        "WorldLoads"@,
        "TreeChops"@,
        "Tree"@,
        "TreeTier0"@,
        "TreeTier1"@,
        "TreeTier2"@,
        "TreeTier3"@,
        "TreeTier4"@,
        "TreeTier5"@,
        "LogChops"@,
        "Logs"@,
        "MineHits"@,
        "Mines"@,
        "MineTier0"@,
        "MineTier1"@,
        "MineTier2"@,
        "MineTier3"@,
        "MineTier4"@,
        "MineTier5"@,
        "RavenHits"@,
        "RavenTalk"@,
        "RavenAppear"@,
        "CreatureTamed"@,
        "FoodEaten"@,
        "SkeletonSummons"@,
        "ArrowsShot"@,
        "TombstonesOpenedOwn"@,
        "TombstonesOpenedOther"@,
        "TombstonesFit"@,
        "DeathByUndefined"@,
        "DeathByEnemyHit"@,
        "DeathByPlayerHit"@,
        "DeathByFall"@,
        "DeathByDrowning"@,
        "DeathByBurning"@,
        "DeathByFreezing"@,
        "DeathByPoisoned"@,
        "DeathBySmoke"@,
        "DeathByWater"@,
        "DeathByEdgeOfWorld"@,
        "DeathByImpact"@,
        "DeathByCart"@,
        "DeathByTree"@,
        "DeathBySelf"@,
        "DeathByStructural"@,
        "DeathByTurret"@,
        "DeathByBoat"@,
        "DeathByStalagtite"@,
        "DoorsOpened"@,
        "DoorsClosed"@,
        "BeesHarvested"@,
        "SapHarvested"@,
        "TurretAmmoAdded"@,
        "TurretTrophySet"@,
        "TrapArmed"@,
        "TrapTriggered"@,
        "PlaceStacks"@,
        "PortalDungeonIn"@,
        "PortalDungeonOut"@,
        "BossKills"@,
        "BossLastHits"@,
        "SetGuardianPower"@,
        "SetPowerEikthyr"@,
        "SetPowerElder"@,
        "SetPowerBonemass"@,
        "SetPowerModer"@,
        "SetPowerYagluth"@,
        "SetPowerQueen"@,
        "SetPowerAshlands"@,
        "SetPowerDeepNorth"@,
        "UseGuardianPower"@,
        "UsePowerEikthyr"@,
        "UsePowerElder"@,
        "UsePowerBonemass"@,
        "UsePowerModer"@,
        "UsePowerYagluth"@,
        "UsePowerQueen"@,
        "UsePowerAshlands"@,
        "UsePowerDeepNorth"@,
        "DeathByCatapult"@,
        "DeathByCinderFire"@,
        "DeathByAshlandsOcean"@,
        "DeathByIncinerator"@,
        "CraftFood"@,
        "CraftFoodBonus"@,
        "CraftGrill"@,
        "CraftGrillBurnt"@,
        "CraftGrillBonus"@,
        "CraftWeapon"@,
        "CraftArmor"@,
        "CraftTrinket"@,
        "CraftAmmo"@,
        "CraftMaterial"@,
        "CraftTool"@,
        "CraftTorch"@,
        "CraftBait"@,
        "CraftOther"@,
        "HarvestCrop"@,
        "HarvestBerry"@,
        "HarvestMushroom"@,
        "HarvestVine"@,
        "HarvestBonus"@,
        "ConsecutiveDaysSurvived"@,
        "ConsecutiveDaysSurvivedMax"@,
        "MaxBuildingHeight"@,
        "MaxBuildingHeightWorld"@,
        "MaxComfort"@,
        "TreasureBuriedFound"@,
        "TreasureDungeonFound"@,
        "TreasureLocationFound"@,
        "LeviathanSink"@,
        "LavaLeviathanSink"@,
        "ExploreNorth"@,
        "ExploreSouth"@,
        "ExploreEast"@,
        "ExploreWest"@,
        "ExploreNorthNoMap"@,
        "ExploreSouthNoMap"@,
        "ExploreEastNoMap"@,
        "ExploreWestNoMap"@,
        "BossKillMultiplayer"@,
        "BossKillSolo"@,
        "VillagePointsMax"@,
        "DeepestDungeon"@,
        "DistanceSailHelm"@,
        "PlayerSpawn"@,
        "DeathByTreeTier0"@,
        "DeathByTreeTier1"@,
        "DeathByTreeTier2"@,
        "DeathByTreeTier3"@,
        "DeathByTreeTier4"@,
        "DeathByTreeTier5"@,
        "FishHooked"@,
        "FishLost"@,
        "FishCaught"@,
        "FishCaughtTier0"@,
        "FishCaughtTier1"@,
        "FishCaughtTier2"@,
        "FishCaughtTier3"@,
        "FishCaughtTier4"@,
        "FishCaughtTier5"@,
        "FishCaughtTier6"@,
        "BuiltPieces"@,
        "BuiltPiecesNoDebt"@,
        "BuildPiecesRemoved"@,
        "BuildClusterMisc"@,
        "BuildClusterCrafting"@,
        "BuildClusterBuilding"@,
        "BuildClusterFloor"@,
        "BuildClusterWall"@,
        "BuildClusterRoof"@,
        "BuildClusterArchitecture"@,
        "BuildClusterFurniture"@,
        "BuildClusterLighting"@,
        "BuildClusterDecor"@,
        "BuildClusterStorage"@,
        "BuildClusterTransport"@,
        "BuildClusterFood"@,
        "BuildClusterMeads"@,
        "BuildClusterFeasts"@,
        "BuildClusterDefense"@,
        "BuildClusterStacks"@,
        "BuildClusterStairs"@,
        "BuildClusterDoors"@,
        "BuildClusterSeasonal"@,
        "TamedPetting"@,
        "TamedCommand"@,
        "TreeFir"@,
        "TreeOak"@,
        "TreePine"@,
        "TreeAshlands"@,
        "TreeYggdrasilShoot"@,
        "TreeSwamp"@,
        "TreeBeech"@,
        "TreeBirch"@,
        "TreeSnowFir"@,
        "TreeSnowPine"@,
        "DeathByDrawBridge"@,
        "DeathByAshlandsLava"@
    ]
}

/// The stat names, in slot order.
fn stat_name_list() -> (v: Vec<&'static str>)
    ensures
        v@.map_values(|s: &'static str| s@) == stat_names(),
{
    let v = vec![
        "Deaths",
        "CraftsOrUpgrades",
        "Builds",
        "Jumps",
        "Cheats",
        "EnemyHits",
        "EnemyKills",
        "EnemyKillsLastHits",
        "PlayerHits",
        "PlayerKills",
        "HitsTakenEnemies",
        "HitsTakenPlayers",
        "ItemsPickedUp",
        "Crafts",
        "Upgrades",
        "PortalsUsed",
        "DistanceTraveled",
        "DistanceWalk",
        "DistanceRun",
        "DistanceSail",
        "DistanceAir",
        "TimeInBase",
        "TimeOutOfBase",
        "Sleep",
        "ItemStandUses",
        "ArmorStandUses",
        "WorldLoads",
        "TreeChops",
        "Tree",
        "TreeTier0",
        "TreeTier1",
        "TreeTier2",
        "TreeTier3",
        "TreeTier4",
        "TreeTier5",
        "LogChops",
        "Logs",
        "MineHits",
        "Mines",
        "MineTier0",
        "MineTier1",
        "MineTier2",
        "MineTier3",
        "MineTier4",
        "MineTier5",
        "RavenHits",
        "RavenTalk",
        "RavenAppear",
        "CreatureTamed",
        "FoodEaten",
        "SkeletonSummons",
        "ArrowsShot",
        "TombstonesOpenedOwn",
        "TombstonesOpenedOther",
        "TombstonesFit",
        "DeathByUndefined",
        "DeathByEnemyHit",
        "DeathByPlayerHit",
        "DeathByFall",
        "DeathByDrowning",
        "DeathByBurning",
        "DeathByFreezing",
        "DeathByPoisoned",
        "DeathBySmoke",
        "DeathByWater",
        "DeathByEdgeOfWorld",
        "DeathByImpact",
        "DeathByCart",
        "DeathByTree",
        "DeathBySelf",
        "DeathByStructural",
        "DeathByTurret",
        "DeathByBoat",
        "DeathByStalagtite",
        "DoorsOpened",
        "DoorsClosed",
        "BeesHarvested",
        "SapHarvested",
        "TurretAmmoAdded",
        "TurretTrophySet",
        "TrapArmed",
        "TrapTriggered",
        "PlaceStacks",
        "PortalDungeonIn",
        "PortalDungeonOut",
        "BossKills",
        "BossLastHits",
        "SetGuardianPower",
        "SetPowerEikthyr",
        "SetPowerElder",
        "SetPowerBonemass",
        "SetPowerModer",
        "SetPowerYagluth",
        "SetPowerQueen",
        "SetPowerAshlands",
        "SetPowerDeepNorth",
        "UseGuardianPower",
        "UsePowerEikthyr",
        "UsePowerElder",
        "UsePowerBonemass",
        "UsePowerModer",
        "UsePowerYagluth",
        "UsePowerQueen",
        "UsePowerAshlands",
        "UsePowerDeepNorth",
        "DeathByCatapult",
        "DeathByCinderFire",
        "DeathByAshlandsOcean",
        "DeathByIncinerator",
        "CraftFood",
        "CraftFoodBonus",
        "CraftGrill",
        "CraftGrillBurnt",
        "CraftGrillBonus",
        "CraftWeapon",
        "CraftArmor",
        "CraftTrinket",
        "CraftAmmo",
        "CraftMaterial",
        "CraftTool",
        "CraftTorch",
        "CraftBait",
        "CraftOther",
        "HarvestCrop",
        "HarvestBerry",
        "HarvestMushroom",
        "HarvestVine",
        "HarvestBonus",
        "ConsecutiveDaysSurvived",
        "ConsecutiveDaysSurvivedMax",
        "MaxBuildingHeight",
        "MaxBuildingHeightWorld",
        "MaxComfort",
        "TreasureBuriedFound",
        "TreasureDungeonFound",
        "TreasureLocationFound",
        "LeviathanSink",
        "LavaLeviathanSink",
        "ExploreNorth",
        "ExploreSouth",
        "ExploreEast",
        "ExploreWest",
        "ExploreNorthNoMap",
        "ExploreSouthNoMap",
        "ExploreEastNoMap",
        "ExploreWestNoMap",
        "BossKillMultiplayer",
        "BossKillSolo",
        "VillagePointsMax",
        "DeepestDungeon",
        "DistanceSailHelm",
        "PlayerSpawn",
        "DeathByTreeTier0",
        "DeathByTreeTier1",
        "DeathByTreeTier2",
        "DeathByTreeTier3",
        "DeathByTreeTier4",
        "DeathByTreeTier5",
        "FishHooked",
        "FishLost",
        "FishCaught",
        "FishCaughtTier0",
        "FishCaughtTier1",
        "FishCaughtTier2",
        "FishCaughtTier3",
        "FishCaughtTier4",
        "FishCaughtTier5",
        "FishCaughtTier6",
        "BuiltPieces",
        "BuiltPiecesNoDebt",
        "BuildPiecesRemoved",
        "BuildClusterMisc",
        "BuildClusterCrafting",
        "BuildClusterBuilding",
        "BuildClusterFloor",
        "BuildClusterWall",
        "BuildClusterRoof",
        "BuildClusterArchitecture",
        "BuildClusterFurniture",
        "BuildClusterLighting",
        "BuildClusterDecor",
        "BuildClusterStorage",
        "BuildClusterTransport",
        "BuildClusterFood",
        "BuildClusterMeads",
        "BuildClusterFeasts",
        "BuildClusterDefense",
        "BuildClusterStacks",
        "BuildClusterStairs",
        "BuildClusterDoors",
        "BuildClusterSeasonal",
        "TamedPetting",
        "TamedCommand",
        "TreeFir",
        "TreeOak",
        "TreePine",
        "TreeAshlands",
        "TreeYggdrasilShoot",
        "TreeSwamp",
        "TreeBeech",
        "TreeBirch",
        "TreeSnowFir",
        "TreeSnowPine",
        "DeathByDrawBridge",
        "DeathByAshlandsLava"
    ];
    assert(v@.map_values(|s: &'static str| s@) =~= stat_names());
    v
}

/// The name of stat slot `index`: its `PlayerStatType` name, or
/// `Stat<index>` past the known ones.
pub open spec fn spec_stat_name(index: usize) -> Seq<char> {
    if index < stat_names().len() {
        stat_names()[index as int]
    } else {
        "Stat"@ + decimal(index as nat)
    }
}

/// The name of stat slot `index`.
pub fn stat_name(index: usize) -> (r: String)
    ensures
        r@ == spec_stat_name(index),
{
    let names = stat_name_list();
    if index < names.len() {
        assert(names@[index as int]@ == stat_names()[index as int]);
        String::from_str(names[index])
    } else {
        proof {
            reveal_strlit("Stat");
        }
        let mut s = String::from_str("Stat");
        push_decimal(&mut s, index as u64);
        s
    }
}

/// The `PlayerStatType` enum of the game, member by member: the name of
/// the member whose value is `slot`, empty for a value it does not have.
pub open spec fn player_stat_type(slot: int) -> Seq<char> {
    if slot == 0 {
        "Deaths"@
    } else if slot == 1 {
        "CraftsOrUpgrades"@
    } else if slot == 2 {
        "Builds"@
    } else if slot == 3 {
        "Jumps"@
    } else if slot == 4 {
        "Cheats"@
    } else if slot == 5 {
        "EnemyHits"@
    } else if slot == 6 {
        "EnemyKills"@
    } else if slot == 7 {
        "EnemyKillsLastHits"@
    } else if slot == 8 {
        "PlayerHits"@
    } else if slot == 9 {
        "PlayerKills"@
    } else if slot == 10 {
        "HitsTakenEnemies"@
    } else if slot == 11 {
        "HitsTakenPlayers"@
    } else if slot == 12 {
        "ItemsPickedUp"@
    } else if slot == 13 {
        "Crafts"@
    } else if slot == 14 {
        "Upgrades"@
    } else if slot == 15 {
        "PortalsUsed"@
    } else if slot == 16 {
        "DistanceTraveled"@
    } else if slot == 17 {
        "DistanceWalk"@
    } else if slot == 18 {
        "DistanceRun"@
    } else if slot == 19 {
        "DistanceSail"@
    } else if slot == 20 {
        "DistanceAir"@
    } else if slot == 21 {
        "TimeInBase"@
    } else if slot == 22 {
        "TimeOutOfBase"@
    } else if slot == 23 {
        "Sleep"@
    } else if slot == 24 {
        "ItemStandUses"@
    } else if slot == 25 {
        "ArmorStandUses"@
    } else if slot == 26 {
        "WorldLoads"@
    } else if slot == 27 {
        "TreeChops"@
    } else if slot == 28 {
        "Tree"@
    } else if slot == 29 {
        "TreeTier0"@
    } else if slot == 30 {
        "TreeTier1"@
    } else if slot == 31 {
        "TreeTier2"@
    } else if slot == 32 {
        "TreeTier3"@
    } else if slot == 33 {
        "TreeTier4"@
    } else if slot == 34 {
        "TreeTier5"@
    } else if slot == 35 {
        "LogChops"@
    } else if slot == 36 {
        "Logs"@
    } else if slot == 37 {
        "MineHits"@
    } else if slot == 38 {
        "Mines"@
    } else if slot == 39 {
        "MineTier0"@
    } else if slot == 40 {
        "MineTier1"@
    } else if slot == 41 {
        "MineTier2"@
    } else if slot == 42 {
        "MineTier3"@
    } else if slot == 43 {
        "MineTier4"@
    } else if slot == 44 {
        "MineTier5"@
    } else if slot == 45 {
        "RavenHits"@
    } else if slot == 46 {
        "RavenTalk"@
    } else if slot == 47 {
        "RavenAppear"@
    } else if slot == 48 {
        "CreatureTamed"@
    } else if slot == 49 {
        "FoodEaten"@
    } else if slot == 50 {
        "SkeletonSummons"@
    } else if slot == 51 {
        "ArrowsShot"@
    } else if slot == 52 {
        "TombstonesOpenedOwn"@
    } else if slot == 53 {
        "TombstonesOpenedOther"@
    } else if slot == 54 {
        "TombstonesFit"@
    } else if slot == 55 {
        "DeathByUndefined"@
    } else if slot == 56 {
        "DeathByEnemyHit"@
    } else if slot == 57 {
        "DeathByPlayerHit"@
    } else if slot == 58 {
        "DeathByFall"@
    } else if slot == 59 {
        "DeathByDrowning"@
    } else if slot == 60 {
        "DeathByBurning"@
    } else if slot == 61 {
        "DeathByFreezing"@
    } else if slot == 62 {
        "DeathByPoisoned"@
    } else if slot == 63 {
        "DeathBySmoke"@
    } else if slot == 64 {
        "DeathByWater"@
    } else if slot == 65 {
        "DeathByEdgeOfWorld"@
    } else if slot == 66 {
        "DeathByImpact"@
    } else if slot == 67 {
        "DeathByCart"@
    } else if slot == 68 {
        "DeathByTree"@
    } else if slot == 69 {
        "DeathBySelf"@
    } else if slot == 70 {
        "DeathByStructural"@
    } else if slot == 71 {
        "DeathByTurret"@
    } else if slot == 72 {
        "DeathByBoat"@
    } else if slot == 73 {
        "DeathByStalagtite"@
    } else if slot == 74 {
        "DoorsOpened"@
    } else if slot == 75 {
        "DoorsClosed"@
    } else if slot == 76 {
        "BeesHarvested"@
    } else if slot == 77 {
        "SapHarvested"@
    } else if slot == 78 {
        "TurretAmmoAdded"@
    } else if slot == 79 {
        "TurretTrophySet"@
    } else if slot == 80 {
        "TrapArmed"@
    } else if slot == 81 {
        "TrapTriggered"@
    } else if slot == 82 {
        "PlaceStacks"@
    } else if slot == 83 {
        "PortalDungeonIn"@
    } else if slot == 84 {
        "PortalDungeonOut"@
    } else if slot == 85 {
        "BossKills"@
    } else if slot == 86 {
        "BossLastHits"@
    } else if slot == 87 {
        "SetGuardianPower"@
    } else if slot == 88 {
        "SetPowerEikthyr"@
    } else if slot == 89 {
        "SetPowerElder"@
    } else if slot == 90 {
        "SetPowerBonemass"@
    } else if slot == 91 {
        "SetPowerModer"@
    } else if slot == 92 {
        "SetPowerYagluth"@
    } else if slot == 93 {
        "SetPowerQueen"@
    } else if slot == 94 {
        "SetPowerAshlands"@
    } else if slot == 95 {
        "SetPowerDeepNorth"@
    } else if slot == 96 {
        "UseGuardianPower"@
    } else if slot == 97 {
        "UsePowerEikthyr"@
    } else if slot == 98 {
        "UsePowerElder"@
    } else if slot == 99 {
        "UsePowerBonemass"@
    } else if slot == 100 {
        "UsePowerModer"@
    } else if slot == 101 {
        "UsePowerYagluth"@
    } else if slot == 102 {
        "UsePowerQueen"@
    } else if slot == 103 {
        "UsePowerAshlands"@
    } else if slot == 104 {
        "UsePowerDeepNorth"@
    } else if slot == 105 {
        "DeathByCatapult"@
    } else if slot == 106 {
        "DeathByCinderFire"@
    } else if slot == 107 {
        "DeathByAshlandsOcean"@
    } else if slot == 108 {
        "DeathByIncinerator"@
    } else if slot == 109 {
        "CraftFood"@
    } else if slot == 110 {
        "CraftFoodBonus"@
    } else if slot == 111 {
        "CraftGrill"@
    } else if slot == 112 {
        "CraftGrillBurnt"@
    } else if slot == 113 {
        "CraftGrillBonus"@
    } else if slot == 114 {
        "CraftWeapon"@
    } else if slot == 115 {
        "CraftArmor"@
    } else if slot == 116 {
        "CraftTrinket"@
    } else if slot == 117 {
        "CraftAmmo"@
    } else if slot == 118 {
        "CraftMaterial"@
    } else if slot == 119 {
        "CraftTool"@
    } else if slot == 120 {
        "CraftTorch"@
    } else if slot == 121 {
        "CraftBait"@
    } else if slot == 122 {
        "CraftOther"@
    } else if slot == 123 {
        "HarvestCrop"@
    } else if slot == 124 {
        "HarvestBerry"@
    } else if slot == 125 {
        "HarvestMushroom"@
    } else if slot == 126 {
        "HarvestVine"@
    } else if slot == 127 {
        "HarvestBonus"@
    } else if slot == 128 {
        "ConsecutiveDaysSurvived"@
    } else if slot == 129 {
        "ConsecutiveDaysSurvivedMax"@
    } else if slot == 130 {
        "MaxBuildingHeight"@
    } else if slot == 131 {
        "MaxBuildingHeightWorld"@
    } else if slot == 132 {
        "MaxComfort"@
    } else if slot == 133 {
        "TreasureBuriedFound"@
    } else if slot == 134 {
        "TreasureDungeonFound"@
    } else if slot == 135 {
        "TreasureLocationFound"@
    } else if slot == 136 {
        "LeviathanSink"@
    } else if slot == 137 {
        "LavaLeviathanSink"@
    } else if slot == 138 {
        "ExploreNorth"@
    } else if slot == 139 {
        "ExploreSouth"@
    } else if slot == 140 {
        "ExploreEast"@
    } else if slot == 141 {
        "ExploreWest"@
    } else if slot == 142 {
        "ExploreNorthNoMap"@
    } else if slot == 143 {
        "ExploreSouthNoMap"@
    } else if slot == 144 {
        "ExploreEastNoMap"@
    } else if slot == 145 {
        "ExploreWestNoMap"@
    } else if slot == 146 {
        "BossKillMultiplayer"@
    } else if slot == 147 {
        "BossKillSolo"@
    } else if slot == 148 {
        "VillagePointsMax"@
    } else if slot == 149 {
        "DeepestDungeon"@
    } else if slot == 150 {
        "DistanceSailHelm"@
    } else if slot == 151 {
        "PlayerSpawn"@
    } else if slot == 152 {
        "DeathByTreeTier0"@
    } else if slot == 153 {
        "DeathByTreeTier1"@
    } else if slot == 154 {
        "DeathByTreeTier2"@
    } else if slot == 155 {
        "DeathByTreeTier3"@
    } else if slot == 156 {
        "DeathByTreeTier4"@
    } else if slot == 157 {
        "DeathByTreeTier5"@
    } else if slot == 158 {
        "FishHooked"@
    } else if slot == 159 {
        "FishLost"@
    } else if slot == 160 {
        "FishCaught"@
    } else if slot == 161 {
        "FishCaughtTier0"@
    } else if slot == 162 {
        "FishCaughtTier1"@
    } else if slot == 163 {
        "FishCaughtTier2"@
    } else if slot == 164 {
        "FishCaughtTier3"@
    } else if slot == 165 {
        "FishCaughtTier4"@
    } else if slot == 166 {
        "FishCaughtTier5"@
    } else if slot == 167 {
        "FishCaughtTier6"@
    } else if slot == 168 {
        "BuiltPieces"@
    } else if slot == 169 {
        "BuiltPiecesNoDebt"@
    } else if slot == 170 {
        "BuildPiecesRemoved"@
    } else if slot == 171 {
        "BuildClusterMisc"@
    } else if slot == 172 {
        "BuildClusterCrafting"@
    } else if slot == 173 {
        "BuildClusterBuilding"@
    } else if slot == 174 {
        "BuildClusterFloor"@
    } else if slot == 175 {
        "BuildClusterWall"@
    } else if slot == 176 {
        "BuildClusterRoof"@
    } else if slot == 177 {
        "BuildClusterArchitecture"@
    } else if slot == 178 {
        "BuildClusterFurniture"@
    } else if slot == 179 {
        "BuildClusterLighting"@
    } else if slot == 180 {
        "BuildClusterDecor"@
    } else if slot == 181 {
        "BuildClusterStorage"@
    } else if slot == 182 {
        "BuildClusterTransport"@
    } else if slot == 183 {
        "BuildClusterFood"@
    } else if slot == 184 {
        "BuildClusterMeads"@
    } else if slot == 185 {
        "BuildClusterFeasts"@
    } else if slot == 186 {
        "BuildClusterDefense"@
    } else if slot == 187 {
        "BuildClusterStacks"@
    } else if slot == 188 {
        "BuildClusterStairs"@
    } else if slot == 189 {
        "BuildClusterDoors"@
    } else if slot == 190 {
        "BuildClusterSeasonal"@
    } else if slot == 191 {
        "TamedPetting"@
    } else if slot == 192 {
        "TamedCommand"@
    } else if slot == 193 {
        "TreeFir"@
    } else if slot == 194 {
        "TreeOak"@
    } else if slot == 195 {
        "TreePine"@
    } else if slot == 196 {
        "TreeAshlands"@
    } else if slot == 197 {
        "TreeYggdrasilShoot"@
    } else if slot == 198 {
        "TreeSwamp"@
    } else if slot == 199 {
        "TreeBeech"@
    } else if slot == 200 {
        "TreeBirch"@
    } else if slot == 201 {
        "TreeSnowFir"@
    } else if slot == 202 {
        "TreeSnowPine"@
    } else if slot == 203 {
        "DeathByDrawBridge"@
    } else if slot == 204 {
        "DeathByAshlandsLava"@
    } else {
        seq![]
    }
}

/// Stat slots are named after the game's `PlayerStatType` enum: slot `i`
/// (0 `Deaths`, 1 `CraftsOrUpgrades`, 2 `Builds`, 3 `Jumps`, 4 `Cheats`,
/// ...) is named after the enum member whose value is `i`, for every member
/// of the enum.
pub proof fn lemma_stat_names_follow_enum()
    ensures
        stat_names().len() == 205,
        forall|i: int| 0 <= i < 205 ==> #[trigger] stat_names()[i] == player_stat_type(i),
        forall|index: usize| index < 205 ==> #[trigger] spec_stat_name(index) == player_stat_type(index as int),
{
    assert(stat_names() =~= Seq::new(205, |i: int| player_stat_type(i)));
}

/// The slot of the stat named `name`, which must be one of them.
pub fn stat_index(name: &str) -> (r: usize)
    requires
        stat_names().contains(name@),
    ensures
        r < stat_names().len(),
        stat_names()[r as int] == name@,
        forall|k: int| 0 <= k < r ==> stat_names()[k] != name@,
{
    let names = stat_name_list();
    let mut i: usize = 0;
    while i < names.len()
        invariant
            i <= names@.len(),
            names@.map_values(|s: &'static str| s@) == stat_names(),
            stat_names().contains(name@),
            forall|k: int| 0 <= k < i ==> stat_names()[k] != name@,
        decreases names@.len() - i,
    {
        assert(names@[i as int]@ == stat_names()[i as int]);
        if str_eq(names[i], name) {
            return i;
        }
        i = i + 1;
    }
    proof {
        let k = choose|k: int| 0 <= k < stat_names().len() && stat_names()[k] == name@;
        assert(stat_names()[k] != name@);
    }
    0
}

} // verus!
