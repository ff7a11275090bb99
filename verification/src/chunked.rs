//! The chunked world layout of game 1.0 (world version 40 and up).
//!
//! A world directory holds, for the current save number `N`: `_main.N.fwl2`
//! (the metadata), `_main.N.db2` (everything from the old `.db` that is not
//! an object), `_main.N.chunks` (which `.chunk` files make up the world and
//! how many objects each holds), `_main.N.ok` (written last), and one
//! `<yy>_<xx>__<size>_<version>.chunk` per chunk of the map. The map is
//! 512 x 512 zones; a size-0 chunk is 8 x 8 zones and each size up doubles
//! that. Portals live in a chunk of their own so the game can connect them
//! before anything else loads.

use vstd::prelude::*;
use crate::hash::{spec_stable_hash, stable_hash};
use crate::seqcodec::{
    counted_encodable, lemma_counted_roundtrip, models, parse_counted, read_counted, ser_counted,
    write_counted,
};
use crate::text::{decimal, hex2, push_decimal, push_hex2};
use crate::wire::Wire;

verus! {

/// Zones per side of a size-0 chunk (`ZoneSystem.c_ZonesPerChunk`).
pub const ZONES_PER_CHUNK: u32 = 8;
/// Zones per side of the whole map.
pub const ZONES_PER_SIDE: u32 = 512;
/// Size-0 chunks per side of the map.
pub const CHUNKS_PER_SIDE: u32 = 64;
/// Largest chunk size (`ZoneSystem.c_MaxChunkSize`).
pub const MAX_CHUNK_SIZE: u8 = 3;
/// A merged chunk may not hold this many objects.
pub const MAX_ZDOS_PER_MERGED_CHUNK: i32 = 100_000;

// ---------------------------------------------------------------- chunk indices

/// `ZoneSystem.ChunkIndex`: the low byte is the x coordinate and the high
/// byte the y coordinate of the chunk on the 64 x 64 grid of size-0 chunks,
/// and `size` says how many of those it merges (`2^size` per side).
#[derive(Clone, Copy, Debug, PartialEq, Eq, Hash, Default, Structural)]
pub struct ChunkIndex {
    pub chunk: u16,
    pub size: u8,
}

impl ChunkIndex {
    /// `ZoneSystem.ChunkPortal`: where every portal is kept, the number of
    /// the size-0 chunk at grid (1, 0).
    pub open spec fn spec_portals() -> ChunkIndex {
        ChunkIndex { chunk: 1, size: 0 }
    }

    pub fn portals() -> (r: ChunkIndex)
        ensures
            r == Self::spec_portals(),
    {
        ChunkIndex { chunk: 1, size: 0 }
    }

    pub fn from_xy(x: u32, y: u32, size: u8) -> (r: ChunkIndex)
        requires
            x + (y << 8u32) <= u32::MAX,
        ensures
            r.chunk == ((x + (y << 8u32)) % 0x10000) as u16,
            r.size == size,
    {
        let c: u32 = x + (y << 8);
        let chunk = (c % 0x10000) as u16;
        ChunkIndex { chunk, size }
    }

    pub open spec fn spec_x(self) -> u32 {
        (self.chunk % 256) as u32
    }

    pub open spec fn spec_y(self) -> u32 {
        (self.chunk / 256) as u32
    }

    pub fn x(self) -> (r: u32)
        ensures
            r == self.spec_x(),
    {
        let c = self.chunk;
        assert(c & 0xFF == c % 256) by (bit_vector);
        (self.chunk & 0xFF) as u32
    }

    pub fn y(self) -> (r: u32)
        ensures
            r == self.spec_y(),
    {
        let c = self.chunk;
        assert(c >> 8 == c / 256) by (bit_vector);
        (self.chunk >> 8) as u32
    }

    /// Size-0 chunks per side.
    pub fn span(self) -> (r: u32)
        requires
            self.size < 32,
        ensures
            r == 1u32 << (self.size as u32),
    {
        1u32 << (self.size as u32)
    }

    /// The zone at the chunk's lower corner (`ZoneSystem.GetZoneFromChunk`).
    pub fn zone_origin(self) -> (r: (i32, i32))
        ensures
            r.0 == self.spec_x() * 8 - 256,
            r.1 == self.spec_y() * 8 - 256,
    {
        let x = self.x() as i32;
        let y = self.y() as i32;
        (x * 8 - 256, y * 8 - 256)
    }

    /// `ChunkSaveMapping.GetChunkFilename`: y and x in two-digit hex, the
    /// size, the version.
    pub fn file_name(self, version: u32) -> (r: String)
        ensures
            r@ == chunk_file_name(self, version),
    {
        proof {
            reveal_strlit("_");
            reveal_strlit("__");
            reveal_strlit(".chunk");
        }
        let mut s = String::new();
        push_hex2(&mut s, self.y() as u64);
        s.append("_");
        push_hex2(&mut s, self.x() as u64);
        s.append("__");
        push_decimal(&mut s, self.size as u64);
        s.append("_");
        push_decimal(&mut s, version as u64);
        s.append(".chunk");
        assert(s@ =~= chunk_file_name(self, version));
        s
    }
}

/// The file name of version `version` of chunk `c`.
pub open spec fn chunk_file_name(c: ChunkIndex, version: u32) -> Seq<char> {
    hex2(c.spec_y() as nat) + seq!['_'] + hex2(c.spec_x() as nat) + seq!['_', '_'] + decimal(
        c.size as nat,
    ) + seq!['_'] + decimal(version as nat) + ".chunk"@
}

/// One entry of the chunk map.
#[derive(Clone, Copy, Debug, PartialEq, Eq, Default, Structural)]
pub struct ChunkInfo {
    pub index: ChunkIndex,
    /// Bumped on every save that rewrites the chunk; part of the file name.
    pub version: u32,
    pub num_zdos: i32,
}

impl ChunkInfo {
    pub fn file_name(&self) -> (r: String)
        ensures
            r@ == chunk_file_name(self.index, self.version),
    {
        self.index.file_name(self.version)
    }
}

/// `_main.<N>.<ext>`.
pub open spec fn spec_main_file_name(save_number: u32, ext: Seq<char>) -> Seq<char> {
    "_main."@ + decimal(save_number as nat) + seq!['.'] + ext
}

/// `_main.<N>.<ext>`.
pub fn main_file_name(save_number: u32, ext: &str) -> (r: String)
    ensures
        r@ == spec_main_file_name(save_number, ext@),
{
    proof {
        reveal_strlit("_main.");
        reveal_strlit(".");
    }
    let mut s = String::from_str("_main.");
    push_decimal(&mut s, save_number as u64);
    s.append(".");
    s.append(ext);
    assert(s@ =~= spec_main_file_name(save_number, ext@));
    s
}

// ---------------------------------------------------------------- sectors

/// `ZoneSystem.SectorToIndex`: the zone's index on the 512 x 512 grid, or 0
/// for a zone off the grid.
pub open spec fn spec_sector_to_index(zone_x: int, zone_y: int) -> u32 {
    let x = zone_x + 256;
    let y = zone_y + 256;
    if 0 <= x < 512 && 0 <= y < 512 {
        (y * 512 + x) as u32
    } else {
        0
    }
}

/// `ZoneSystem.SectorToIndex`.
pub fn sector_to_index(zone_x: i32, zone_y: i32) -> (r: u32)
    requires
        zone_x + 256 <= i32::MAX,
        zone_y + 256 <= i32::MAX,
    ensures
        r == spec_sector_to_index(zone_x as int, zone_y as int),
{
    let x = zone_x + 256;
    let y = zone_y + 256;
    if x < 0 || y < 0 || x >= 512 || y >= 512 {
        0
    } else {
        (y as u32) * 512 + (x as u32)
    }
}

// ---------------------------------------------------------------- merging chunks

/// The four cells of block `(bx, by)` of a `size` x `size` level.
pub open spec fn block_cells(size: int, bx: int, by: int) -> Seq<int> {
    seq![by * size + bx, by * size + bx + 1, (by + 1) * size + bx, (by + 1) * size + bx + 1]
}

/// The sum of the counts in block `(bx, by)`.
pub open spec fn block_sum(fine: Seq<i32>, size: int, bx: int, by: int) -> int {
    fine[by * size + bx] + fine[by * size + bx + 1] + fine[(by + 1) * size + bx] + fine[(by + 1)
        * size + bx + 1]
}

/// Whether block `(bx, by)` merges: not in the first row or column, and it
/// holds something, but fewer objects than the limit.
pub open spec fn block_merges(fine: Seq<i32>, size: int, bx: int, by: int) -> bool {
    bx != 0 && by != 0 && 0 < block_sum(fine, size, bx, by) < MAX_ZDOS_PER_MERGED_CHUNK
}

/// The coarser count of block `(bx, by)` that held `was`: kept when
/// negative, which marks a block already decided; else its sum when it
/// merges, else the marker that keeps it and its ancestors from merging.
pub open spec fn coarse_count(fine: Seq<i32>, was: i32, size: int, bx: int, by: int) -> i32 {
    if was < 0 {
        was
    } else if block_merges(fine, size, bx, by) {
        block_sum(fine, size, bx, by) as i32
    } else {
        -100_000_000i32
    }
}

/// A finer cell after merging: zero when its block merged, its block's
/// coarser cell not being negative.
pub open spec fn fine_after(fine: Seq<i32>, coarse: Seq<i32>, size: int, c: int) -> i32 {
    let bx = (c % size) / 2 * 2;
    let by = (c / size) / 2 * 2;
    if coarse[block_of(size, c)] >= 0 && block_merges(fine, size, bx, by) {
        0
    } else {
        fine[c]
    }
}

/// Cell counts that four of them can be added without overflow.
pub open spec fn counts_bounded(s: Seq<i32>) -> bool {
    forall|k: int| 0 <= k < s.len() ==> -100_000_000 <= #[trigger] s[k] <= 0x1000_0000
}

/// The block of cell `c` on a `size` x `size` level, numbered row by row.
pub open spec fn block_of(size: int, c: int) -> int {
    ((c / size) / 2) * (size / 2) + (c % size) / 2
}

/// `ZDOMan.DecideChunkSize` with no previous chunk map: every 2 x 2 block of
/// the finer level that has objects but fewer than the limit, and is not in
/// the first row or column, becomes one chunk of the coarser level.
/// What deciding a level does: `f1` and `c1` are the finer and coarser
/// counts after it, from `f0` and `c0` before.
pub open spec fn decided(f0: Seq<i32>, c0: Seq<i32>, f1: Seq<i32>, c1: Seq<i32>, size: int) -> bool {
    &&& f1.len() == size * size
    &&& c1.len() == (size / 2) * (size / 2)
    &&& forall|c: int| 0 <= c < size * size ==> #[trigger] f1[c] == fine_after(f0, c0, size, c)
    &&& forall|b: int|
        0 <= b < (size / 2) * (size / 2) ==> #[trigger] c1[b] == coarse_count(
            f0,
            c0[b],
            size,
            (b % (size / 2)) * 2,
            (b / (size / 2)) * 2,
        )
}

/// A cell with objects, under a coarser cell not yet decided, keeps them
/// or passes them up: after deciding, it or its coarser cell counts more
/// than zero.
proof fn lemma_decided_keeps(f0: Seq<i32>, c0: Seq<i32>, f1: Seq<i32>, c1: Seq<i32>, size: int, c: int)
    requires
        2 <= size <= 64,
        size % 2 == 0,
        decided(f0, c0, f1, c1, size),
        0 <= c < size * size,
        f0[c] > 0,
        c0[block_of(size, c)] >= 0,
    ensures
        f1[c] > 0 || c1[block_of(size, c)] > 0,
{
    lemma_cell_of_block(size, c, 0);
    let b = block_of(size, c);
    assert(f1[c] == fine_after(f0, c0, size, c));
    assert(c1[b] == coarse_count(f0, c0[b], size, (b % (size / 2)) * 2, (b / (size / 2)) * 2));
}

pub fn decide_chunk_size(size: usize, fine: &mut Vec<i32>, coarse: &mut Vec<i32>)
    requires
        2 <= size <= 64,
        size % 2 == 0,
        old(fine)@.len() == size * size,
        old(coarse)@.len() == (size / 2) * (size / 2),
        counts_bounded(old(fine)@),
        counts_bounded(old(coarse)@),
    ensures
        final(fine)@.len() == size * size,
        final(coarse)@.len() == (size / 2) * (size / 2),
        forall|c: int| 0 <= c < size * size ==> #[trigger] final(fine)@[c] == fine_after(old(fine)@, old(coarse)@, size as int, c),
        forall|b: int|
            0 <= b < (size / 2) * (size / 2) ==> #[trigger] final(coarse)@[b] == coarse_count(
                old(fine)@,
                old(coarse)@[b],
                size as int,
                (b % (size / 2) as int) * 2,
                (b / (size / 2) as int) * 2,
            ),
        counts_bounded(final(fine)@),
        counts_bounded(final(coarse)@),
        decided(old(fine)@, old(coarse)@, final(fine)@, final(coarse)@, size as int),
{
    let ghost f0 = old(fine)@;
    let ghost c0 = old(coarse)@;
    let half = size / 2;
    assert(half <= 32);
    assert(half * half <= 1024) by (nonlinear_arith)
        requires
            half <= 32,
    ;
    let n = half * half;
    let mut b: usize = 0;
    while b < n
        invariant
            2 <= size <= 64,
            half == size / 2,
            n == half * half,
            size % 2 == 0,
            b <= n,
            fine@.len() == size * size,
            coarse@.len() == n,
            counts_bounded(f0),
            counts_bounded(c0),
            f0.len() == size * size,
            c0.len() == n,
            forall|k: int| b <= k < n ==> #[trigger] coarse@[k] == c0[k],
            forall|c: int|
                0 <= c < size * size ==> #[trigger] fine@[c] == if block_of(size as int, c) < b {
                    fine_after(f0, c0, size as int, c)
                } else {
                    f0[c]
                },
            forall|k: int|
                0 <= k < b ==> #[trigger] coarse@[k] == coarse_count(
                    f0,
                    c0[k],
                    size as int,
                    (k % half as int) * 2,
                    (k / half as int) * 2,
                ),
        decreases n - b,
    {
        assert(b / half < 64) by (nonlinear_arith)
            requires
                b < half * half,
                1 <= half <= 32,
        ;
        let bx = (b % half) * 2;
        let by = (b / half) * 2;
        proof {
            lemma_block_cells(size as int, b as int, bx as int, by as int);
        }
        assert(size * size <= 4096) by (nonlinear_arith)
            requires
                size <= 64,
        ;
        let i0 = by * size + bx;
        let i1 = i0 + 1;
        let i2 = i0 + size;
        let i3 = i2 + 1;
        if coarse[b] >= 0 {
            let sum: i32 = fine[i0] + fine[i1] + fine[i2] + fine[i3];
            assert(sum == block_sum(f0, size as int, bx as int, by as int));
            if bx != 0 && by != 0 && sum > 0 && sum < MAX_ZDOS_PER_MERGED_CHUNK {
                coarse.set(b, sum);
                fine.set(i0, 0);
                fine.set(i1, 0);
                fine.set(i2, 0);
                fine.set(i3, 0);
            } else {
                coarse.set(b, -100_000_000);
            }
        }
        proof {
            assert forall|c: int| 0 <= c < size * size implies #[trigger] fine@[c] == if block_of(
                size as int,
                c,
            ) < b + 1 {
                fine_after(f0, c0, size as int, c)
            } else {
                f0[c]
            } by {
                lemma_cell_of_block(size as int, c, b as int);
            }
        }
        b = b + 1;
    }
    proof {
        assert forall|c: int| 0 <= c < size * size implies #[trigger] fine@[c] == fine_after(f0, c0, size as int, c) by {
            lemma_cell_of_block(size as int, c, 0);
        }
    }
}

/// The cells of block `b`: where they are, and that they belong to `b`.
proof fn lemma_block_cells(size: int, b: int, bx: int, by: int)
    requires
        2 <= size <= 64,
        size % 2 == 0,
        0 <= b < (size / 2) * (size / 2),
        bx == (b % (size / 2)) * 2,
        by == (b / (size / 2)) * 2,
    ensures
        0 <= bx < size,
        0 <= by < size,
        bx % 2 == 0,
        by % 2 == 0,
        by * size + bx + size + 1 < size * size,
        block_of(size, by * size + bx) == b,
        block_of(size, by * size + bx + 1) == b,
        block_of(size, by * size + bx + size) == b,
        block_of(size, by * size + bx + size + 1) == b,
        (by + 1) * size == by * size + size,
{
    let half = size / 2;
    vstd::arithmetic::div_mod::lemma_fundamental_div_mod(b, half);
    assert(b / half < half) by (nonlinear_arith)
        requires
            0 <= b < half * half,
            half > 0,
    ;
    assert(by * size + bx + size + 1 < size * size) by (nonlinear_arith)
        requires
            0 <= bx <= size - 2,
            0 <= by <= size - 2,
            size > 0,
    ;
    assert((by + 1) * size == by * size + size) by (nonlinear_arith);
    assert(by / 2 == b / half);
    assert(bx / 2 == b % half);
    assert((b / half) * half + b % half == b) by (nonlinear_arith)
        requires
            b == half * (b / half) + b % half,
    ;
    vstd::arithmetic::div_mod::lemma_fundamental_div_mod_converse(by * size + bx, size, by, bx);
    vstd::arithmetic::div_mod::lemma_fundamental_div_mod_converse(by * size + bx + 1, size, by, bx + 1);
    assert(by * size + bx + size == (by + 1) * size + bx);
    vstd::arithmetic::div_mod::lemma_fundamental_div_mod_converse(by * size + bx + size, size, by + 1, bx);
    vstd::arithmetic::div_mod::lemma_fundamental_div_mod_converse(
        by * size + bx + size + 1,
        size,
        by + 1,
        bx + 1,
    );
    assert((by + 1) / 2 == by / 2);
    assert((bx + 1) / 2 == bx / 2);
}

/// A cell that block `b`'s settling leaves alone keeps its state: the four
/// cells of `b` are settled, every other cell belongs to another block.
proof fn lemma_cell_of_block(size: int, c: int, b: int)
    requires
        2 <= size <= 64,
        size % 2 == 0,
        0 <= c < size * size,
    ensures
        0 <= block_of(size, c) < (size / 2) * (size / 2),
        ({
            let half = size / 2;
            let k = block_of(size, c);
            let bx = (k % half) * 2;
            let by = (k / half) * 2;
            &&& (c % size) / 2 * 2 == bx
            &&& (c / size) / 2 * 2 == by
            &&& (c == by * size + bx || c == by * size + bx + 1 || c == by * size + bx + size || c == by
                * size + bx + size + 1)
        }),
{
    let half = size / 2;
    vstd::arithmetic::div_mod::lemma_fundamental_div_mod(c, size);
    let row = c / size;
    let col = c % size;
    assert(0 <= row < size) by (nonlinear_arith)
        requires
            0 <= c < size * size,
            row == c / size,
            size > 0,
    ;
    let k = (row / 2) * half + col / 2;
    assert(0 <= k < half * half) by (nonlinear_arith)
        requires
            0 <= row / 2 < half,
            0 <= col / 2 < half,
            k == (row / 2) * half + col / 2,
    ;
    vstd::arithmetic::div_mod::lemma_fundamental_div_mod_converse(k, half, row / 2, col / 2);
    assert(c == row * size + col) by (nonlinear_arith)
        requires
            c == size * row + col,
    ;
    assert((row / 2) * 2 * size == (row / 2 * 2) * size) by (nonlinear_arith);
    if row % 2 == 0 {
        assert(row == (row / 2) * 2);
    } else {
        assert(row == (row / 2) * 2 + 1);
        assert(row * size == (row / 2) * 2 * size + size) by (nonlinear_arith)
            requires
                row == (row / 2) * 2 + 1,
        ;
    }
}

// ---------------------------------------------------------------- dealing objects into chunks

/// Prefabs `Game.m_portalPrefabs` lists; their objects are kept apart.
pub open spec fn portal_prefab_names() -> Seq<Seq<char>> {
    seq!["portal"@, "portal_wood"@, "portal_stone"@]
}

/// Whether `prefab` is one of the portal prefabs.
pub open spec fn is_portal(prefab: i32) -> bool {
    portal_prefab_names().map_values(|n: Seq<char>| spec_stable_hash(n)).contains(prefab)
}

/// The portal prefabs' names.
pub fn portal_prefabs() -> (v: Vec<&'static str>)
    ensures
        v@.map_values(|s: &'static str| s@) == portal_prefab_names(),
{
    let v = vec!["portal", "portal_wood", "portal_stone"];
    assert(v@.map_values(|s: &'static str| s@) =~= portal_prefab_names());
    v
}

fn portal_hashes() -> (h: Vec<i32>)
    ensures
        h@ == portal_prefab_names().map_values(|n: Seq<char>| spec_stable_hash(n)),
{
    let names = portal_prefabs();
    let mut h: Vec<i32> = Vec::new();
    let mut j: usize = 0;
    while j < names.len()
        invariant
            j <= names@.len(),
            names@.map_values(|s: &'static str| s@) == portal_prefab_names(),
            h@ == portal_prefab_names().map_values(|n: Seq<char>| spec_stable_hash(n)).take(j as int),
        decreases names@.len() - j,
    {
        h.push(stable_hash(names[j]));
        j = j + 1;
        assert(h@ =~= portal_prefab_names().map_values(|n: Seq<char>| spec_stable_hash(n)).take(j as int));
    }
    assert(portal_prefab_names().map_values(|n: Seq<char>| spec_stable_hash(n)).take(j as int)
        =~= portal_prefab_names().map_values(|n: Seq<char>| spec_stable_hash(n)));
    h
}

fn has_i32(v: &Vec<i32>, x: i32) -> (r: bool)
    ensures
        r == v@.contains(x),
{
    let mut j: usize = 0;
    while j < v.len()
        invariant
            j <= v@.len(),
            forall|k: int| 0 <= k < j ==> v@[k] != x,
        decreases v@.len() - j,
    {
        if v[j] == x {
            assert(v@[j as int] == x);
            return true;
        }
        j = j + 1;
    }
    false
}

/// Whether sector `s` lies in the square of zones of chunk `c`.
pub open spec fn sector_in_chunk(s: u32, c: ChunkIndex) -> bool {
    let zx = c.spec_x() * 8 - 256;
    let zy = c.spec_y() * 8 - 256;
    let zones = 8 * pow2_size(c.size);
    let x = (s % 512) as int - 256;
    let y = (s / 512) as int - 256;
    zx <= x < zx + zones && zy <= y < zy + zones
}

/// Size-0 chunks per side of a chunk of `size` (up to the largest size).
pub open spec fn pow2_size(size: u8) -> int {
    if size == 0 {
        1
    } else if size == 1 {
        2
    } else if size == 2 {
        4
    } else {
        8
    }
}

/// The objects filed under the first `n` zones of row `y` from column
/// `x0`, west to east.
pub open spec fn row_members(by_sector: Seq<Vec<usize>>, x0: int, y: int, n: nat) -> Seq<usize>
    decreases n,
{
    if n == 0 {
        seq![]
    } else {
        row_members(by_sector, x0, y, (n - 1) as nat) + by_sector[(y + 256) * 512 + (x0 + n - 1 + 256)]@
    }
}

/// The objects filed under the first `rows` rows, `n` zones each, of the
/// square with corner zone (`x0`, `y0`), rows first.
pub open spec fn square_members(by_sector: Seq<Vec<usize>>, x0: int, y0: int, n: nat, rows: nat) -> Seq<usize>
    decreases rows,
{
    if rows == 0 {
        seq![]
    } else {
        square_members(by_sector, x0, y0, n, (rows - 1) as nat) + row_members(by_sector, x0, y0 + rows - 1, n)
    }
}

/// The objects of every zone in chunk `c`'s square, zone by zone, rows
/// first.
pub open spec fn chunk_members(by_sector: Seq<Vec<usize>>, c: ChunkIndex) -> Seq<usize> {
    let n = (8 * pow2_size(c.size)) as nat;
    square_members(by_sector, c.spec_x() * 8 - 256, c.spec_y() * 8 - 256, n, n)
}

/// Append the objects of every zone in chunk `index`'s square, zone by
/// zone, rows first.
fn gather(
    by_sector: &Vec<Vec<usize>>,
    index: ChunkIndex,
    span: u32,
    members: &mut Vec<usize>,
    ghost_sectors: Ghost<Seq<u32>>,
    ghost_prefabs: Ghost<Seq<i32>>,
)
    requires
        by_sector@.len() == 512 * 512,
        index.size <= 3,
        span as int == pow2_size(index.size),
        index.spec_x() + span <= 64,
        index.spec_y() + span <= 64,
        forall|s: int, k: int|
            0 <= s < 512 * 512 && 0 <= k < by_sector@[s]@.len() ==> #[trigger] by_sector@[s]@[k]
                < ghost_sectors@.len() && ghost_sectors@[by_sector@[s]@[k] as int] == s
                && !is_portal(ghost_prefabs@[by_sector@[s]@[k] as int]),
        forall|k: int| 0 <= k < old(members)@.len() ==> #[trigger] old(members)@[k] < ghost_sectors@.len()
            && sector_in_chunk(ghost_sectors@[old(members)@[k] as int], index) && !is_portal(
            ghost_prefabs@[old(members)@[k] as int],
        ),
    ensures
        forall|k: int| 0 <= k < final(members)@.len() ==> #[trigger] final(members)@[k] < ghost_sectors@.len()
            && sector_in_chunk(ghost_sectors@[final(members)@[k] as int], index) && !is_portal(
            ghost_prefabs@[final(members)@[k] as int],
        ),
        old(members)@.len() <= final(members)@.len(),
        final(members)@ == old(members)@ + chunk_members(by_sector@, index),
{
    let (zx, zy) = index.zone_origin();
    let zones: i32 = (8 * span) as i32;
    let mut j: i32 = zy;
    while j < zy + zones
        invariant
            by_sector@.len() == 512 * 512,
            index.size <= 3,
            span as int == pow2_size(index.size),
            index.spec_x() + span <= 64,
            index.spec_y() + span <= 64,
            zx == index.spec_x() * 8 - 256,
            zy == index.spec_y() * 8 - 256,
            zones == 8 * span,
            zy <= j <= zy + zones,
            forall|s: int, k: int|
                0 <= s < 512 * 512 && 0 <= k < by_sector@[s]@.len() ==> #[trigger] by_sector@[s]@[k]
                    < ghost_sectors@.len() && ghost_sectors@[by_sector@[s]@[k] as int] == s
                    && !is_portal(ghost_prefabs@[by_sector@[s]@[k] as int]),
            forall|k: int| 0 <= k < members@.len() ==> #[trigger] members@[k] < ghost_sectors@.len()
                && sector_in_chunk(ghost_sectors@[members@[k] as int], index) && !is_portal(
                ghost_prefabs@[members@[k] as int],
            ),
            old(members)@.len() <= members@.len(),
            members@ == old(members)@ + square_members(by_sector@, zx as int, zy as int, zones as nat, (j - zy) as nat),
        decreases zy + zones - j,
    {
        let ghost at_row = members@;
        let mut k: i32 = zx;
        while k < zx + zones
            invariant
                by_sector@.len() == 512 * 512,
                index.size <= 3,
                span as int == pow2_size(index.size),
                index.spec_x() + span <= 64,
                index.spec_y() + span <= 64,
                zx == index.spec_x() * 8 - 256,
                zy == index.spec_y() * 8 - 256,
                zones == 8 * span,
                zy <= j < zy + zones,
                zx <= k <= zx + zones,
                forall|s: int, q: int|
                    0 <= s < 512 * 512 && 0 <= q < by_sector@[s]@.len() ==> #[trigger] by_sector@[s]@[q]
                        < ghost_sectors@.len() && ghost_sectors@[by_sector@[s]@[q] as int] == s
                        && !is_portal(ghost_prefabs@[by_sector@[s]@[q] as int]),
                forall|q: int| 0 <= q < members@.len() ==> #[trigger] members@[q] < ghost_sectors@.len()
                    && sector_in_chunk(ghost_sectors@[members@[q] as int], index) && !is_portal(
                    ghost_prefabs@[members@[q] as int],
                ),
                old(members)@.len() <= members@.len(),
                at_row == old(members)@ + square_members(by_sector@, zx as int, zy as int, zones as nat, (j - zy) as nat),
                members@ == at_row + row_members(by_sector@, zx as int, j as int, (k - zx) as nat),
            decreases zx + zones - k,
        {
            let ghost at_zone = members@;
            let s = sector_to_index(k, j);
            assert(s == (j + 256) * 512 + (k + 256));
            let list = &by_sector[s as usize];
            let mut q: usize = 0;
            while q < list.len()
                invariant
                    q <= list@.len(),
                    list@ == by_sector@[s as int]@,
                    0 <= s < 512 * 512,
                    s == (j + 256) * 512 + (k + 256),
                    index.spec_x() + span <= 64,
                    index.spec_y() + span <= 64,
                    zx <= k < zx + zones,
                    zy <= j < zy + zones,
                    zx == index.spec_x() * 8 - 256,
                    zy == index.spec_y() * 8 - 256,
                    zones == 8 * span,
                    span as int == pow2_size(index.size),
                    forall|s2: int, q2: int|
                        0 <= s2 < 512 * 512 && 0 <= q2 < by_sector@[s2]@.len() ==> #[trigger] by_sector@[s2]@[q2]
                            < ghost_sectors@.len() && ghost_sectors@[by_sector@[s2]@[q2] as int] == s2
                            && !is_portal(ghost_prefabs@[by_sector@[s2]@[q2] as int]),
                    forall|q2: int| 0 <= q2 < members@.len() ==> #[trigger] members@[q2] < ghost_sectors@.len()
                        && sector_in_chunk(ghost_sectors@[members@[q2] as int], index) && !is_portal(
                        ghost_prefabs@[members@[q2] as int],
                    ),
                    old(members)@.len() <= members@.len(),
                    members@ == at_zone + list@.subrange(0, q as int),
                decreases list@.len() - q,
            {
                let m = list[q];
                assert(by_sector@[s as int]@[q as int] == m);
                assert(ghost_sectors@[m as int] == s);
                assert(index.spec_x() * 8 + 8 * span <= 512);
                assert(0 <= k + 256 < 512);
                proof {
                    vstd::arithmetic::div_mod::lemma_fundamental_div_mod_converse(
                        s as int,
                        512,
                        j + 256,
                        k + 256,
                    );
                }
                assert((s % 512) as int == k + 256 && (s / 512) as int == j + 256);
                members.push(m);
                q = q + 1;
                assert(list@.subrange(0, q as int) =~= list@.subrange(0, q - 1).push(m));
                assert(members@ =~= at_zone + list@.subrange(0, q as int));
            }
            proof {
                assert(list@.subrange(0, list@.len() as int) =~= list@);
                let n = (k - zx) as nat;
                assert(row_members(by_sector@, zx as int, j as int, (n + 1) as nat) == row_members(
                    by_sector@,
                    zx as int,
                    j as int,
                    n,
                ) + by_sector@[s as int]@);
                assert(members@ =~= at_row + row_members(by_sector@, zx as int, j as int, (n + 1) as nat));
            }
            k = k + 1;
        }
        proof {
            let r = (j - zy) as nat;
            assert(square_members(by_sector@, zx as int, zy as int, zones as nat, (r + 1) as nat)
                == square_members(by_sector@, zx as int, zy as int, zones as nat, r) + row_members(
                by_sector@,
                zx as int,
                j as int,
                zones as nat,
            ));
            assert(members@ =~= old(members)@ + square_members(
                by_sector@,
                zx as int,
                zy as int,
                zones as nat,
                (r + 1) as nat,
            ));
        }
        j = j + 1;
    }
}

/// Whether `c` is a chunk of objects that are no portals, each in the
/// chunk's square of zones.
pub open spec fn chunk_holds(c: (ChunkIndex, Seq<usize>), sectors: Seq<u32>, prefabs: Seq<i32>) -> bool {
    &&& c.0.size <= 3
    &&& forall|k: int|
        0 <= k < c.1.len() ==> #[trigger] c.1[k] < sectors.len() && sector_in_chunk(sectors[c.1[k] as int], c.0)
            && !is_portal(prefabs[c.1[k] as int])
}

/// A chunk list as plain values.
pub open spec fn chunks_view(v: Seq<(ChunkIndex, Vec<usize>)>) -> Seq<(ChunkIndex, Seq<usize>)> {
    v.map_values(|c: (ChunkIndex, Vec<usize>)| (c.0, c.1@))
}

proof fn lemma_from_xy(x: u32, y: u32)
    requires
        x < 64,
        y < 64,
    ensures
        (y << 8u32) == y * 256,
        x + (y << 8u32) <= u32::MAX,
        ((((x + (y << 8u32)) % 0x10000) as u16) % 256) as u32 == x,
        ((((x + (y << 8u32)) % 0x10000) as u16) / 256) as u32 == y,
{
    assert((y << 8u32) == y * 256) by (bit_vector)
        requires
            y < 64,
    ;
    let c = x + y * 256;
    assert(c < 0x10000);
    vstd::arithmetic::div_mod::lemma_fundamental_div_mod_converse(c as int, 256, y as int, x as int);
}

proof fn lemma_cell_coords(i: int, size: int, span: int)
    requires
        size * span == 64,
        1 <= span <= 8,
        0 <= i < size * size,
    ensures
        size >= 8,
        0 <= i % size < size,
        0 <= i / size < size,
        (i % size) * span + span <= 64,
        (i / size) * span + span <= 64,
        (i % size) * span < 64,
        (i / size) * span < 64,
{
    vstd::arithmetic::div_mod::lemma_fundamental_div_mod(i, size);
    assert(size >= 8) by (nonlinear_arith)
        requires
            size * span == 64,
            1 <= span <= 8,
    ;
    assert(0 <= i / size < size) by (nonlinear_arith)
        requires
            0 <= i < size * size,
            size > 0,
    ;
    assert((i % size) * span + span <= 64) by (nonlinear_arith)
        requires
            0 <= i % size < size,
            size * span == 64,
            span >= 1,
    ;
    assert((i / size) * span + span <= 64) by (nonlinear_arith)
        requires
            0 <= i / size < size,
            size * span == 64,
            span >= 1,
    ;
}

/// The chunk of cell `i` of a level `size` cells a side whose chunks are
/// `span` size-0 chunks wide.
pub open spec fn cell_chunk(i: int, size: int, span: int, level: u8) -> ChunkIndex {
    ChunkIndex { chunk: ((i % size) * span + (i / size) * span * 256) as u16, size: level }
}

/// The chunks of the first `n` cells of a level whose count is positive,
/// cells in order, each with its objects.
pub open spec fn level_chunks(
    counts: Seq<i32>,
    level: u8,
    size: int,
    span: int,
    by_sector: Seq<Vec<usize>>,
    n: nat,
) -> Seq<(ChunkIndex, Seq<usize>)>
    decreases n,
{
    if n == 0 {
        seq![]
    } else {
        let p = level_chunks(counts, level, size, span, by_sector, (n - 1) as nat);
        let c = cell_chunk(n - 1, size, span, level);
        if counts[n - 1] > 0 {
            p.push((c, chunk_members(by_sector, c)))
        } else {
            p
        }
    }
}

/// Emit the chunks of one level with a positive count, cells in order.
fn emit_level(
    counts: &Vec<i32>,
    level: u8,
    size: usize,
    span: u32,
    by_sector: &Vec<Vec<usize>>,
    out: &mut Vec<(ChunkIndex, Vec<usize>)>,
    ghost_sectors: Ghost<Seq<u32>>,
    ghost_prefabs: Ghost<Seq<i32>>,
)
    requires
        level <= 3,
        span as int == pow2_size(level),
        size * span == 64,
        counts@.len() == size * size,
        by_sector@.len() == 512 * 512,
        forall|s: int, k: int|
            0 <= s < 512 * 512 && 0 <= k < by_sector@[s]@.len() ==> #[trigger] by_sector@[s]@[k]
                < ghost_sectors@.len() && ghost_sectors@[by_sector@[s]@[k] as int] == s
                && !is_portal(ghost_prefabs@[by_sector@[s]@[k] as int]),
    ensures
        chunks_view(final(out)@).take(old(out)@.len() as int) == chunks_view(old(out)@),
        old(out)@.len() <= final(out)@.len(),
        forall|k: int|
            old(out)@.len() <= k < final(out)@.len() ==> #[trigger] chunk_holds(
                chunks_view(final(out)@)[k],
                ghost_sectors@,
                ghost_prefabs@,
            ),
        forall|k: int| old(out)@.len() <= k < final(out)@.len() ==> (#[trigger] final(out)@[k]).0.size == level,
        chunks_view(final(out)@) == chunks_view(old(out)@) + level_chunks(
            counts@,
            level,
            size as int,
            span as int,
            by_sector@,
            (size * size) as nat,
        ),
{
    let ghost start = chunks_view(old(out)@);
    assert(size <= 64 && size * size <= 4096) by (nonlinear_arith)
        requires
            size * span == 64,
            span >= 1,
    ;
    let n = size * size;
    let mut i: usize = 0;
    while i < n
        invariant
            level <= 3,
            span as int == pow2_size(level),
            size * span == 64,
            n == size * size,
            counts@.len() == n,
            i <= n,
            by_sector@.len() == 512 * 512,
            forall|s: int, k: int|
                0 <= s < 512 * 512 && 0 <= k < by_sector@[s]@.len() ==> #[trigger] by_sector@[s]@[k]
                    < ghost_sectors@.len() && ghost_sectors@[by_sector@[s]@[k] as int] == s
                    && !is_portal(ghost_prefabs@[by_sector@[s]@[k] as int]),
            start.len() <= out@.len(),
            chunks_view(out@).take(start.len() as int) == start,
            start == chunks_view(old(out)@),
            forall|k: int|
                start.len() <= k < out@.len() ==> #[trigger] chunk_holds(
                    chunks_view(out@)[k],
                    ghost_sectors@,
                    ghost_prefabs@,
                ),
            forall|k: int| start.len() <= k < out@.len() ==> (#[trigger] out@[k]).0.size == level,
            chunks_view(out@) == start + level_chunks(counts@, level, size as int, span as int, by_sector@, i as nat),
        decreases n - i,
    {
        let ghost at_cell = chunks_view(out@);
        if counts[i] > 0 {
            proof {
                lemma_cell_coords(i as int, size as int, span as int);
            }
            let x = ((i % size) as u32) * span;
            let y = ((i / size) as u32) * span;
            proof {
                lemma_from_xy(x, y);
            }
            let index = ChunkIndex::from_xy(x, y, level);
            assert(index.spec_x() == x && index.spec_y() == y);
            assert(index == cell_chunk(i as int, size as int, span as int, level));
            let mut members: Vec<usize> = Vec::new();
            gather(by_sector, index, span, &mut members, ghost_sectors, ghost_prefabs);
            assert(members@ =~= chunk_members(by_sector@, index));
            let ghost before = chunks_view(out@);
            out.push((index, members));
            proof {
                assert(chunks_view(out@) =~= before.push((index, members@)));
                assert(chunks_view(out@).take(start.len() as int) =~= before.take(start.len() as int));
                assert(chunk_holds((index, members@), ghost_sectors@, ghost_prefabs@));
                assert(chunks_view(out@) =~= start + level_chunks(
                    counts@,
                    level,
                    size as int,
                    span as int,
                    by_sector@,
                    (i + 1) as nat,
                ));
                assert forall|k: int|
                    start.len() <= k < out@.len() implies #[trigger] chunk_holds(
                        chunks_view(out@)[k],
                        ghost_sectors@,
                        ghost_prefabs@,
                    ) && out@[k].0.size == level by {
                    if k < out@.len() - 1 {
                        assert(chunks_view(out@)[k] == before[k]);
                    } else {
                        assert(chunks_view(out@)[k] == (index, members@));
                    }
                }
            }
            assert(forall|k: int|
                start.len() <= k < out@.len() ==> #[trigger] chunk_holds(
                    chunks_view(out@)[k],
                    ghost_sectors@,
                    ghost_prefabs@,
                ) && out@[k].0.size == level);
        } else {
            assert(forall|k: int|
                start.len() <= k < out@.len() ==> #[trigger] chunk_holds(
                    chunks_view(out@)[k],
                    ghost_sectors@,
                    ghost_prefabs@,
                ) && out@[k].0.size == level);
            assert(level_chunks(counts@, level, size as int, span as int, by_sector@, (i + 1) as nat)
                == level_chunks(counts@, level, size as int, span as int, by_sector@, i as nat));
        }
        i = i + 1;
    }
}

/// The sum of the lengths of `v`'s lists.
pub open spec fn lens_sum(v: Seq<Vec<usize>>) -> nat
    decreases v.len(),
{
    if v.len() == 0 {
        0
    } else {
        lens_sum(v.drop_last()) + v.last()@.len()
    }
}

proof fn lemma_lens_sum_update(v: Seq<Vec<usize>>, i: int, x: Vec<usize>)
    requires
        0 <= i < v.len(),
    ensures
        lens_sum(v.update(i, x)) + v[i]@.len() == lens_sum(v) + x@.len(),
    decreases v.len(),
{
    if i < v.len() - 1 {
        assert(v.update(i, x).drop_last() =~= v.drop_last().update(i, x));
        lemma_lens_sum_update(v.drop_last(), i, x);
    } else {
        assert(v.update(i, x).drop_last() =~= v.drop_last());
    }
}

proof fn lemma_lens_sum_prefix(v: Seq<Vec<usize>>, i: int)
    requires
        0 <= i <= v.len(),
    ensures
        lens_sum(v.take(i)) <= lens_sum(v),
    decreases v.len() - i,
{
    if i < v.len() {
        lemma_lens_sum_prefix(v, i + 1);
        assert(v.take(i + 1).drop_last() =~= v.take(i));
    } else {
        assert(v.take(i) =~= v);
    }
}

/// File object `i` of sector `sec` under its sector.
fn place(by_sector: &mut Vec<Vec<usize>>, sec: u32, i: usize, gs: Ghost<Seq<u32>>, gp: Ghost<Seq<i32>>)
    requires
        old(by_sector)@.len() == 512 * 512,
        sec < 512 * 512,
        i < gs@.len(),
        gs@[i as int] == sec,
        !is_portal(gp@[i as int]),
        lens_sum(old(by_sector)@) <= i,
        forall|t: int, k: int|
            0 <= t < 512 * 512 && 0 <= k < old(by_sector)@[t]@.len() ==> #[trigger] old(by_sector)@[t]@[k] < i
                && gs@[old(by_sector)@[t]@[k] as int] == t && !is_portal(gp@[old(by_sector)@[t]@[k] as int]),
    ensures
        final(by_sector)@.len() == 512 * 512,
        lens_sum(final(by_sector)@) <= i + 1,
        forall|t: int, k: int|
            0 <= t < 512 * 512 && 0 <= k < final(by_sector)@[t]@.len() ==> #[trigger] final(by_sector)@[t]@[k] < i + 1
                && gs@[final(by_sector)@[t]@[k] as int] == t && !is_portal(gp@[final(by_sector)@[t]@[k] as int]),
        final(by_sector)@[sec as int]@ == old(by_sector)@[sec as int]@.push(i),
        forall|t: int| 0 <= t < 512 * 512 && t != sec ==> #[trigger] final(by_sector)@[t] == old(by_sector)@[t],
{
    let ghost old_bs = by_sector@;
    by_sector[sec as usize].push(i);
    proof {
        lemma_lens_sum_update(old_bs, sec as int, by_sector@[sec as int]);
        assert(by_sector@ == old_bs.update(sec as int, by_sector@[sec as int]));
        assert forall|t: int, k: int|
            0 <= t < 512 * 512 && 0 <= k < by_sector@[t]@.len() implies #[trigger] by_sector@[t]@[k] < i + 1
                && gs@[by_sector@[t]@[k] as int] == t && !is_portal(gp@[by_sector@[t]@[k] as int]) by {
            if t == sec as int && k == by_sector@[t]@.len() - 1 {
                assert(by_sector@[t]@[k] == i);
            } else if t == sec as int {
                assert(by_sector@[t]@[k] == old_bs[t]@[k]);
            } else {
                assert(by_sector@[t] == old_bs[t]);
            }
        }
    }
}

/// The portals among the first `i` objects, as `(sector, index)` in order.
pub open spec fn portal_list(sectors: Seq<u32>, prefabs: Seq<i32>, i: int) -> Seq<(u32, usize)>
    decreases i,
{
    if i <= 0 {
        seq![]
    } else {
        let p = portal_list(sectors, prefabs, i - 1);
        if is_portal(prefabs[i - 1]) {
            p.push((sectors[i - 1], (i - 1) as usize))
        } else {
            p
        }
    }
}

proof fn lemma_portal_list(sectors: Seq<u32>, prefabs: Seq<i32>, i: int)
    requires
        0 <= i <= prefabs.len(),
        i <= usize::MAX,
    ensures
        forall|k: int|
            0 <= k < portal_list(sectors, prefabs, i).len() ==> (#[trigger] portal_list(sectors, prefabs, i)[k]).1
                < i && is_portal(prefabs[portal_list(sectors, prefabs, i)[k].1 as int]),
        forall|t: int| 0 <= t < i && is_portal(#[trigger] prefabs[t]) ==> exists|k: int|
            0 <= k < portal_list(sectors, prefabs, i).len() && portal_list(sectors, prefabs, i)[k].1 == t,
    decreases i,
{
    if i > 0 {
        lemma_portal_list(sectors, prefabs, i - 1);
        let p = portal_list(sectors, prefabs, i - 1);
        let l = portal_list(sectors, prefabs, i);
        assert forall|t: int| 0 <= t < i && is_portal(#[trigger] prefabs[t]) implies exists|k: int|
            0 <= k < l.len() && l[k].1 == t by {
            if t < i - 1 {
                let k = choose|k: int| 0 <= k < p.len() && p[k].1 == t;
                assert(l[k] == p[k]);
            } else {
                assert(l == p.push((sectors[i - 1], (i - 1) as usize)));
                assert(l[l.len() - 1].1 == t);
            }
        }
    }
}

/// File every object under its sector, portals apart.
fn sort_objects(
    sectors: &Vec<u32>,
    prefabs: &Vec<i32>,
    hashes: &Vec<i32>,
    by_sector: &mut Vec<Vec<usize>>,
    portals: &mut Vec<(u32, usize)>,
)
    requires
        sectors@.len() == prefabs@.len(),
        sectors@.len() < 0x1000_0000,
        forall|t: int| 0 <= t < sectors@.len() ==> #[trigger] sectors@[t] < 512 * 512,
        hashes@ == portal_prefab_names().map_values(|h: Seq<char>| spec_stable_hash(h)),
        old(by_sector)@.len() == 512 * 512,
        lens_sum(old(by_sector)@) == 0,
        forall|t: int| 0 <= t < 512 * 512 ==> (#[trigger] old(by_sector)@[t])@.len() == 0,
        old(portals)@.len() == 0,
    ensures
        final(by_sector)@.len() == 512 * 512,
        lens_sum(final(by_sector)@) <= sectors@.len(),
        forall|t: int, k: int|
            0 <= t < 512 * 512 && 0 <= k < final(by_sector)@[t]@.len() ==> #[trigger] final(by_sector)@[t]@[k]
                < sectors@.len() && sectors@[final(by_sector)@[t]@[k] as int] == t && !is_portal(
                prefabs@[final(by_sector)@[t]@[k] as int],
            ),
        final(portals)@ == portal_list(sectors@, prefabs@, sectors@.len() as int),
        forall|j: int|
            0 <= j < sectors@.len() && !is_portal(#[trigger] prefabs@[j]) ==> final(by_sector)@[sectors@[j] as int]@.contains(
                j as usize,
            ),
        forall|t: int, a: int, b: int|
            0 <= t < 512 * 512 && 0 <= a < b < final(by_sector)@[t]@.len() ==> #[trigger] final(by_sector)@[t]@[a]
                < #[trigger] final(by_sector)@[t]@[b],
{
    let n = sectors.len();
    let mut i: usize = 0;
    assert(portals@ =~= portal_list(sectors@, prefabs@, 0));
    while i < n
        invariant
            n == sectors@.len(),
            n == prefabs@.len(),
            i <= n,
            hashes@ == portal_prefab_names().map_values(|h: Seq<char>| spec_stable_hash(h)),
            forall|t: int| 0 <= t < n ==> #[trigger] sectors@[t] < 512 * 512,
            by_sector@.len() == 512 * 512,
            lens_sum(by_sector@) <= i,
            forall|t: int, k: int|
                0 <= t < 512 * 512 && 0 <= k < by_sector@[t]@.len() ==> #[trigger] by_sector@[t]@[k] < i
                    && sectors@[by_sector@[t]@[k] as int] == t && !is_portal(
                    prefabs@[by_sector@[t]@[k] as int],
                ),
            portals@ == portal_list(sectors@, prefabs@, i as int),
            forall|j: int| 0 <= j < i && !is_portal(#[trigger] prefabs@[j]) ==> by_sector@[sectors@[j] as int]@.contains(
                j as usize,
            ),
            forall|t: int, a: int, b: int|
                0 <= t < 512 * 512 && 0 <= a < b < by_sector@[t]@.len() ==> #[trigger] by_sector@[t]@[a]
                    < #[trigger] by_sector@[t]@[b],
        decreases n - i,
    {
        let sec = sectors[i];
        let ghost before = by_sector@;
        if has_i32(hashes, prefabs[i]) {
            portals.push((sec, i));
        } else {
            place(by_sector, sec, i, Ghost(sectors@), Ghost(prefabs@));
            proof {
                assert forall|t: int, a: int, b: int|
                    0 <= t < 512 * 512 && 0 <= a < b < by_sector@[t]@.len() implies #[trigger] by_sector@[t]@[a]
                        < #[trigger] by_sector@[t]@[b] by {
                    if t == sec as int {
                        if b == by_sector@[t]@.len() - 1 {
                            assert(by_sector@[t]@[a] == before[t]@[a]);
                        } else {
                            assert(by_sector@[t]@[a] == before[t]@[a] && by_sector@[t]@[b] == before[t]@[b]);
                        }
                    } else {
                        assert(by_sector@[t] == before[t]);
                    }
                }
                assert(by_sector@[sec as int]@[by_sector@[sec as int]@.len() - 1] == i);
                assert forall|j: int| 0 <= j < i + 1 && !is_portal(#[trigger] prefabs@[j]) implies by_sector@[sectors@[
                    j
                ] as int]@.contains(j as usize) by {
                    if j < i {
                        let t = sectors@[j] as int;
                        let q = choose|q: int| 0 <= q < before[t]@.len() && before[t]@[q] == j as usize;
                        if t == sec as int {
                            assert(by_sector@[t]@[q] == j as usize);
                        } else {
                            assert(by_sector@[t] == before[t]);
                        }
                    }
                }
            }
        }
        i = i + 1;
    }
}

/// The cell, on a level of `size` x `size` chunks each `span` size-0
/// chunks wide, holding the zone of sector `z`.
pub open spec fn zone_cell(z: int, span: int, size: int) -> int {
    ((z / 512) / (8 * span)) * size + (z % 512) / (8 * span)
}

proof fn lemma_zone_cell(z: int, span: int, size: int)
    requires
        0 <= z < 512 * 512,
        (span == 1 && size == 64) || (span == 2 && size == 32) || (span == 4 && size == 16) || (span == 8 && size
            == 8),
    ensures
        0 <= zone_cell(z, span, size) < size * size,
        zone_cell(z, span, size) % size == (z % 512) / (8 * span),
        zone_cell(z, span, size) / size == (z / 512) / (8 * span),
        span < 8 ==> block_of(size, zone_cell(z, span, size)) == zone_cell(z, span * 2, size / 2),
{
    let y = (z / 512) / (8 * span);
    let x = (z % 512) / (8 * span);
    assert(0 <= z / 512 < 512);
    assert(0 <= y < size && 0 <= x < size) by {
        let d = 8 * span;
        let a = z / 512;
        let b = z % 512;
        vstd::arithmetic::div_mod::lemma_fundamental_div_mod(a, d);
        vstd::arithmetic::div_mod::lemma_fundamental_div_mod(b, d);
        assert(d * size == 512);
        assert(0 <= y < size) by (nonlinear_arith)
            requires
                0 <= a < 512,
                d > 0,
                d * size == 512,
                a == d * y + a % d,
                0 <= a % d,
        ;
        assert(0 <= x < size) by (nonlinear_arith)
            requires
                0 <= b < 512,
                d > 0,
                d * size == 512,
                b == d * x + b % d,
                0 <= b % d,
        ;
    }
    let c = y * size + x;
    assert(0 <= c < size * size) by (nonlinear_arith)
        requires
            0 <= y < size,
            0 <= x < size,
            c == y * size + x,
    ;
    vstd::arithmetic::div_mod::lemma_fundamental_div_mod_converse(c, size, y, x);
    if span < 8 {
        vstd::arithmetic::div_mod::lemma_div_denominator(z / 512, 8 * span, 2);
        vstd::arithmetic::div_mod::lemma_div_denominator(z % 512, 8 * span, 2);
        assert((8 * span) * 2 == 8 * (span * 2));
    }
}

/// The sector index of zone (`x`, `y`) is where `chunk_members` looks for
/// it.
proof fn lemma_row_has(by_sector: Seq<Vec<usize>>, x0: int, y: int, n: nat, x: int, e: usize)
    requires
        x0 <= x < x0 + n,
        0 <= (y + 256) * 512 + (x + 256) < by_sector.len(),
        by_sector[(y + 256) * 512 + (x + 256)]@.contains(e),
    ensures
        row_members(by_sector, x0, y, n).contains(e),
    decreases n,
{
    if x < x0 + n - 1 {
        lemma_row_has(by_sector, x0, y, (n - 1) as nat, x, e);
        let p = row_members(by_sector, x0, y, (n - 1) as nat);
        let q = choose|q: int| 0 <= q < p.len() && p[q] == e;
        assert(row_members(by_sector, x0, y, n)[q] == e);
    } else {
        let l = by_sector[(y + 256) * 512 + (x + 256)]@;
        let p = row_members(by_sector, x0, y, (n - 1) as nat);
        let q = choose|q: int| 0 <= q < l.len() && l[q] == e;
        assert(row_members(by_sector, x0, y, n)[p.len() + q] == e);
    }
}

proof fn lemma_square_has(by_sector: Seq<Vec<usize>>, x0: int, y0: int, n: nat, rows: nat, x: int, y: int, e: usize)
    requires
        x0 <= x < x0 + n,
        y0 <= y < y0 + rows,
        0 <= (y + 256) * 512 + (x + 256) < by_sector.len(),
        by_sector[(y + 256) * 512 + (x + 256)]@.contains(e),
    ensures
        square_members(by_sector, x0, y0, n, rows).contains(e),
    decreases rows,
{
    let p = square_members(by_sector, x0, y0, n, (rows - 1) as nat);
    if y < y0 + rows - 1 {
        lemma_square_has(by_sector, x0, y0, n, (rows - 1) as nat, x, y, e);
        let q = choose|q: int| 0 <= q < p.len() && p[q] == e;
        assert(square_members(by_sector, x0, y0, n, rows)[q] == e);
    } else {
        lemma_row_has(by_sector, x0, y, n, x, e);
        let l = row_members(by_sector, x0, y, n);
        let q = choose|q: int| 0 <= q < l.len() && l[q] == e;
        assert(square_members(by_sector, x0, y0, n, rows)[p.len() + q] == e);
    }
}

/// The chunk of the cell holding the zone of sector `z` lists what is
/// filed under `z`.
proof fn lemma_cell_chunk_has(by_sector: Seq<Vec<usize>>, z: int, span: int, size: int, level: u8, e: usize)
    requires
        0 <= z < 512 * 512,
        by_sector.len() == 512 * 512,
        (span == 1 && size == 64 && level == 0) || (span == 2 && size == 32 && level == 1) || (span == 4 && size
            == 16 && level == 2) || (span == 8 && size == 8 && level == 3),
        by_sector[z]@.contains(e),
    ensures
        chunk_members(by_sector, cell_chunk(zone_cell(z, span, size), size, span, level)).contains(e),
{
    lemma_zone_cell(z, span, size);
    let a = zone_cell(z, span, size);
    let cx = (z % 512) / (8 * span);
    let cy = (z / 512) / (8 * span);
    assert(cx * span < 64 && cy * span < 64) by (nonlinear_arith)
        requires
            0 <= cx < size,
            0 <= cy < size,
            size * span == 64,
            span >= 1,
    ;
    assert(cx * span >= 0 && cy * span >= 0) by (nonlinear_arith)
        requires
            0 <= cx,
            0 <= cy,
            span >= 1,
    ;
    let chunk = cx * span + cy * span * 256;
    assert(0 <= chunk < 0x10000);
    let c = cell_chunk(a, size, span, level);
    assert(c.chunk as int == chunk);
    vstd::arithmetic::div_mod::lemma_fundamental_div_mod_converse(chunk, 256, cy * span, cx * span);
    assert(c.spec_x() == cx * span && c.spec_y() == cy * span);
    let zx = z % 512;
    let zy = z / 512;
    vstd::arithmetic::div_mod::lemma_fundamental_div_mod(zx, 8 * span);
    vstd::arithmetic::div_mod::lemma_fundamental_div_mod(zy, 8 * span);
    assert(cx * span * 8 == (8 * span) * cx) by (nonlinear_arith);
    assert(cy * span * 8 == (8 * span) * cy) by (nonlinear_arith);
    assert(pow2_size(level) == span);
    vstd::arithmetic::div_mod::lemma_fundamental_div_mod(z, 512);
    assert((zy - 256 + 256) * 512 + (zx - 256 + 256) == z);
    lemma_square_has(
        by_sector,
        c.spec_x() * 8 - 256,
        c.spec_y() * 8 - 256,
        (8 * span) as nat,
        (8 * span) as nat,
        zx - 256,
        zy - 256,
        e,
    );
}

/// A cell with a positive count has its chunk among the level's chunks.
proof fn lemma_level_chunks_has(
    counts: Seq<i32>,
    level: u8,
    size: int,
    span: int,
    by_sector: Seq<Vec<usize>>,
    n: nat,
    a: int,
)
    requires
        0 <= a < n,
        n <= counts.len(),
        counts[a] > 0,
    ensures
        exists|k: int|
            0 <= k < level_chunks(counts, level, size, span, by_sector, n).len() && #[trigger] level_chunks(
                counts,
                level,
                size,
                span,
                by_sector,
                n,
            )[k] == (cell_chunk(a, size, span, level), chunk_members(by_sector, cell_chunk(a, size, span, level))),
    decreases n,
{
    let p = level_chunks(counts, level, size, span, by_sector, (n - 1) as nat);
    if a < n - 1 {
        lemma_level_chunks_has(counts, level, size, span, by_sector, (n - 1) as nat, a);
        let k = choose|k: int| 0 <= k < p.len() && #[trigger] p[k] == (
            cell_chunk(a, size, span, level),
            chunk_members(by_sector, cell_chunk(a, size, span, level)),
        );
        assert(level_chunks(counts, level, size, span, by_sector, n)[k] == p[k]);
    } else {
        assert(level_chunks(counts, level, size, span, by_sector, n)[p.len() as int] == (
            cell_chunk(a, size, span, level),
            chunk_members(by_sector, cell_chunk(a, size, span, level)),
        ));
    }
}

/// The chunks the four levels emit, size 0 first.
pub open spec fn all_level_chunks(
    c0: Seq<i32>,
    c1: Seq<i32>,
    c2: Seq<i32>,
    c3: Seq<i32>,
    by_sector: Seq<Vec<usize>>,
) -> Seq<(ChunkIndex, Seq<usize>)> {
    level_chunks(c0, 0, 64, 1, by_sector, 4096) + level_chunks(c1, 1, 32, 2, by_sector, 1024) + level_chunks(
        c2,
        2,
        16,
        4,
        by_sector,
        256,
    ) + level_chunks(c3, 3, 8, 8, by_sector, 64)
}

/// Whether every count of `c` is zero.
pub open spec fn all_zero(c: Seq<i32>) -> bool {
    forall|k: int| 0 <= k < c.len() ==> #[trigger] c[k] == 0
}

/// A level lists what is filed under zone `z` when the cell holding `z`
/// counts more than zero.
proof fn lemma_level_has_zone(
    counts: Seq<i32>,
    level: u8,
    size: int,
    span: int,
    by_sector: Seq<Vec<usize>>,
    z: int,
    e: usize,
)
    requires
        by_sector.len() == 512 * 512,
        0 <= z < 512 * 512,
        by_sector[z]@.contains(e),
        (span == 1 && size == 64 && level == 0) || (span == 2 && size == 32 && level == 1) || (span == 4 && size
            == 16 && level == 2) || (span == 8 && size == 8 && level == 3),
        counts.len() == size * size,
        counts[zone_cell(z, span, size)] > 0,
    ensures
        exists|k: int|
            0 <= k < level_chunks(counts, level, size, span, by_sector, (size * size) as nat).len() && (
            #[trigger] level_chunks(counts, level, size, span, by_sector, (size * size) as nat)[k]).1.contains(e),
{
    lemma_zone_cell(z, span, size);
    let a = zone_cell(z, span, size);
    let l = level_chunks(counts, level, size, span, by_sector, (size * size) as nat);
    lemma_level_chunks_has(counts, level, size, span, by_sector, (size * size) as nat, a);
    lemma_cell_chunk_has(by_sector, z, span, size, level, e);
    let k = choose|k: int| 0 <= k < l.len() && #[trigger] l[k] == (
        cell_chunk(a, size, span, level),
        chunk_members(by_sector, cell_chunk(a, size, span, level)),
    );
    assert(l[k].1.contains(e));
}

/// The level, from the finest, at which the zone of sector `z` is emitted:
/// the first whose cell holding it counts more than zero.
proof fn lemma_some_level(
    v0: Seq<i32>,
    z1: Seq<i32>,
    z2: Seq<i32>,
    z3: Seq<i32>,
    c0: Seq<i32>,
    c1a: Seq<i32>,
    c1: Seq<i32>,
    c2a: Seq<i32>,
    c2: Seq<i32>,
    c3: Seq<i32>,
    z: int,
)
    requires
        0 <= z < 512 * 512,
        v0.len() == 4096,
        v0[zone_cell(z, 1, 64)] > 0,
        z1.len() == 1024 && all_zero(z1),
        z2.len() == 256 && all_zero(z2),
        z3.len() == 64 && all_zero(z3),
        decided(v0, z1, c0, c1a, 64),
        decided(c1a, z2, c1, c2a, 32),
        decided(c2a, z3, c2, c3, 16),
    ensures
        c0[zone_cell(z, 1, 64)] > 0 || c1[zone_cell(z, 2, 32)] > 0 || c2[zone_cell(z, 4, 16)] > 0 || c3[zone_cell(
            z,
            8,
            8,
        )] > 0,
{
    lemma_zone_cell(z, 1, 64);
    lemma_zone_cell(z, 2, 32);
    lemma_zone_cell(z, 4, 16);
    lemma_zone_cell(z, 8, 8);
    assert(z1[zone_cell(z, 2, 32)] == 0);
    assert(z2[zone_cell(z, 4, 16)] == 0);
    assert(z3[zone_cell(z, 8, 8)] == 0);
    lemma_decided_keeps(v0, z1, c0, c1a, 64, zone_cell(z, 1, 64));
    if c1a[zone_cell(z, 2, 32)] > 0 {
        lemma_decided_keeps(c1a, z2, c1, c2a, 32, zone_cell(z, 2, 32));
        if c2a[zone_cell(z, 4, 16)] > 0 {
            lemma_decided_keeps(c2a, z3, c2, c3, 16, zone_cell(z, 4, 16));
        }
    }
}

/// What is filed under a zone with objects ends up in a chunk of some level.
#[verifier::spinoff_prover]
#[verifier::rlimit(30)]
proof fn lemma_covered(
    by_sector: Seq<Vec<usize>>,
    c0: Seq<i32>,
    c1: Seq<i32>,
    c2: Seq<i32>,
    c3: Seq<i32>,
    z: int,
    e: usize,
)
    requires
        by_sector.len() == 512 * 512,
        0 <= z < 512 * 512,
        by_sector[z]@.contains(e),
        c0.len() == 4096,
        c1.len() == 1024,
        c2.len() == 256,
        c3.len() == 64,
        c0[zone_cell(z, 1, 64)] > 0 || c1[zone_cell(z, 2, 32)] > 0 || c2[zone_cell(z, 4, 16)] > 0 || c3[zone_cell(
            z,
            8,
            8,
        )] > 0,
    ensures
        exists|k: int|
            0 <= k < all_level_chunks(c0, c1, c2, c3, by_sector).len() && (#[trigger] all_level_chunks(
                c0,
                c1,
                c2,
                c3,
                by_sector,
            )[k]).1.contains(e),
{
    let l0 = level_chunks(c0, 0, 64, 1, by_sector, 4096);
    let l1 = level_chunks(c1, 1, 32, 2, by_sector, 1024);
    let l2 = level_chunks(c2, 2, 16, 4, by_sector, 256);
    let l3 = level_chunks(c3, 3, 8, 8, by_sector, 64);
    let all = all_level_chunks(c0, c1, c2, c3, by_sector);
    assert(all == l0 + l1 + l2 + l3);
    if c0[zone_cell(z, 1, 64)] > 0 {
        lemma_level_has_zone(c0, 0, 64, 1, by_sector, z, e);
        let k = choose|k: int| 0 <= k < l0.len() && (#[trigger] l0[k]).1.contains(e);
        assert(all[k] == l0[k]);
    } else if c1[zone_cell(z, 2, 32)] > 0 {
        lemma_level_has_zone(c1, 1, 32, 2, by_sector, z, e);
        let k = choose|k: int| 0 <= k < l1.len() && (#[trigger] l1[k]).1.contains(e);
        assert(all[l0.len() + k] == l1[k]);
    } else if c2[zone_cell(z, 4, 16)] > 0 {
        lemma_level_has_zone(c2, 2, 16, 4, by_sector, z, e);
        let k = choose|k: int| 0 <= k < l2.len() && (#[trigger] l2[k]).1.contains(e);
        assert(all[l0.len() + l1.len() + k] == l2[k]);
    } else {
        lemma_level_has_zone(c3, 3, 8, 8, by_sector, z, e);
        let k = choose|k: int| 0 <= k < l3.len() && (#[trigger] l3[k]).1.contains(e);
        assert(all[l0.len() + l1.len() + l2.len() + k] == l3[k]);
    }
}

/// Whether object `x` comes before object `y`: a lower sector, or the same
/// sector and a lower index.
pub open spec fn before_in(x: usize, y: usize, sectors: Seq<u32>) -> bool {
    sectors[x as int] < sectors[y as int] || (sectors[x as int] == sectors[y as int] && x < y)
}

/// Whether the objects `ms` ascend by sector, then by index.
pub open spec fn ascends(ms: Seq<usize>, sectors: Seq<u32>) -> bool {
    forall|a: int, b: int| 0 <= a < b < ms.len() ==> before_in(#[trigger] ms[a], #[trigger] ms[b], sectors)
}

/// Whether `by_sector` files each object under its sector, in rising order.
pub open spec fn filed(by_sector: Seq<Vec<usize>>, sectors: Seq<u32>) -> bool {
    &&& by_sector.len() == 512 * 512
    &&& forall|t: int, k: int|
        0 <= t < 512 * 512 && 0 <= k < by_sector[t]@.len() ==> #[trigger] by_sector[t]@[k] < sectors.len()
            && sectors[by_sector[t]@[k] as int] == t
    &&& forall|t: int, a: int, b: int|
        0 <= t < 512 * 512 && 0 <= a < b < by_sector[t]@.len() ==> #[trigger] by_sector[t]@[a]
            < #[trigger] by_sector[t]@[b]
}

/// Two runs that ascend, all of the first in lower sectors than all of the
/// second, ascend together.
proof fn lemma_ascends_concat(p: Seq<usize>, q: Seq<usize>, sectors: Seq<u32>)
    requires
        ascends(p, sectors),
        ascends(q, sectors),
        forall|a: int, b: int|
            0 <= a < p.len() && 0 <= b < q.len() ==> sectors[#[trigger] p[a] as int] < sectors[#[trigger] q[b] as int],
    ensures
        ascends(p + q, sectors),
{
    let r = p + q;
    assert forall|a: int, b: int| 0 <= a < b < r.len() implies before_in(#[trigger] r[a], #[trigger] r[b], sectors) by {
        if b < p.len() {
            assert(r[a] == p[a] && r[b] == p[b]);
        } else if a >= p.len() {
            assert(r[a] == q[a - p.len()] && r[b] == q[b - p.len()]);
        } else {
            assert(r[a] == p[a] && r[b] == q[b - p.len()]);
        }
    }
}

proof fn lemma_row_ascends(by_sector: Seq<Vec<usize>>, sectors: Seq<u32>, x0: int, y: int, n: nat)
    requires
        filed(by_sector, sectors),
        -256 <= x0,
        x0 + n <= 256,
        -256 <= y < 256,
    ensures
        ascends(row_members(by_sector, x0, y, n), sectors),
        forall|k: int|
            0 <= k < row_members(by_sector, x0, y, n).len() ==> {
                &&& #[trigger] row_members(by_sector, x0, y, n)[k] < sectors.len()
                &&& (y + 256) * 512 + x0 + 256 <= sectors[row_members(by_sector, x0, y, n)[k] as int]
                &&& sectors[row_members(by_sector, x0, y, n)[k] as int] < (y + 256) * 512 + x0 + 256 + n
            },
    decreases n,
{
    if n > 0 {
        lemma_row_ascends(by_sector, sectors, x0, y, (n - 1) as nat);
        let p = row_members(by_sector, x0, y, (n - 1) as nat);
        let z = (y + 256) * 512 + (x0 + n - 1 + 256);
        assert(0 <= z < 512 * 512) by (nonlinear_arith)
            requires
                -256 <= y < 256,
                -256 <= x0,
                x0 + n <= 256,
                n >= 1,
                z == (y + 256) * 512 + (x0 + n - 1 + 256),
        ;
        let l = by_sector[z]@;
        assert(ascends(l, sectors)) by {
            assert forall|a: int, b: int| 0 <= a < b < l.len() implies before_in(#[trigger] l[a], #[trigger] l[b], sectors) by {
                assert(by_sector[z]@[a] < by_sector[z]@[b]);
                assert(sectors[by_sector[z]@[a] as int] == z);
                assert(sectors[by_sector[z]@[b] as int] == z);
            }
        }
        assert forall|a: int, b: int| 0 <= a < p.len() && 0 <= b < l.len() implies sectors[#[trigger] p[a] as int]
            < sectors[#[trigger] l[b] as int] by {
            assert(sectors[by_sector[z]@[b] as int] == z);
        }
        lemma_ascends_concat(p, l, sectors);
        let r = row_members(by_sector, x0, y, n);
        assert(r == p + l);
        assert forall|k: int| 0 <= k < r.len() implies {
            &&& #[trigger] r[k] < sectors.len()
            &&& (y + 256) * 512 + x0 + 256 <= sectors[r[k] as int]
            &&& sectors[r[k] as int] < (y + 256) * 512 + x0 + 256 + n
        } by {
            if k >= p.len() {
                assert(r[k] == by_sector[z]@[k - p.len()]);
            } else {
                assert(r[k] == p[k]);
            }
        }
    }
}

proof fn lemma_square_ascends(by_sector: Seq<Vec<usize>>, sectors: Seq<u32>, x0: int, y0: int, n: nat, rows: nat)
    requires
        filed(by_sector, sectors),
        -256 <= x0,
        x0 + n <= 256,
        -256 <= y0,
        y0 + rows <= 256,
    ensures
        ascends(square_members(by_sector, x0, y0, n, rows), sectors),
        forall|k: int|
            0 <= k < square_members(by_sector, x0, y0, n, rows).len() ==> {
                &&& #[trigger] square_members(by_sector, x0, y0, n, rows)[k] < sectors.len()
                &&& sectors[square_members(by_sector, x0, y0, n, rows)[k] as int] < (y0 + rows - 1 + 256) * 512 + x0
                    + 256 + n
            },
    decreases rows,
{
    if rows > 0 {
        lemma_square_ascends(by_sector, sectors, x0, y0, n, (rows - 1) as nat);
        let p = square_members(by_sector, x0, y0, n, (rows - 1) as nat);
        let y = y0 + rows - 1;
        lemma_row_ascends(by_sector, sectors, x0, y, n);
        let l = row_members(by_sector, x0, y, n);
        assert forall|a: int, b: int| 0 <= a < p.len() && 0 <= b < l.len() implies sectors[#[trigger] p[a] as int]
            < sectors[#[trigger] l[b] as int] by {
            assert(sectors[l[b] as int] >= (y + 256) * 512 + x0 + 256);
            assert(sectors[p[a] as int] < (y - 1 + 256) * 512 + x0 + 256 + n);
        }
        lemma_ascends_concat(p, l, sectors);
        let r = square_members(by_sector, x0, y0, n, rows);
        assert(r == p + l);
        assert forall|k: int| 0 <= k < r.len() implies {
            &&& #[trigger] r[k] < sectors.len()
            &&& sectors[r[k] as int] < (y0 + rows - 1 + 256) * 512 + x0 + 256 + n
        } by {
            if k >= p.len() {
                assert(r[k] == l[k - p.len()]);
            } else {
                assert(r[k] == p[k]);
            }
        }
    }
}

/// The objects of the chunk of any cell of a level ascend.
proof fn lemma_cell_chunk_ascends(by_sector: Seq<Vec<usize>>, sectors: Seq<u32>, a: int, size: int, span: int, level: u8)
    requires
        filed(by_sector, sectors),
        0 <= a < size * size,
        (span == 1 && size == 64 && level == 0) || (span == 2 && size == 32 && level == 1) || (span == 4 && size
            == 16 && level == 2) || (span == 8 && size == 8 && level == 3),
    ensures
        ascends(chunk_members(by_sector, cell_chunk(a, size, span, level)), sectors),
{
    let cx = a % size;
    let cy = a / size;
    vstd::arithmetic::div_mod::lemma_fundamental_div_mod(a, size);
    assert(0 <= cy < size) by (nonlinear_arith)
        requires
            0 <= a < size * size,
            size > 0,
            cy == a / size,
    ;
    assert(cx * span + span <= 64 && cy * span + span <= 64) by (nonlinear_arith)
        requires
            0 <= cx < size,
            0 <= cy < size,
            size * span == 64,
            span >= 1,
    ;
    assert(cx * span >= 0 && cy * span >= 0) by (nonlinear_arith)
        requires
            0 <= cx,
            0 <= cy,
            span >= 1,
    ;
    let chunk = cx * span + cy * span * 256;
    assert(0 <= chunk < 0x10000);
    let c = cell_chunk(a, size, span, level);
    assert(c.chunk as int == chunk);
    vstd::arithmetic::div_mod::lemma_fundamental_div_mod_converse(chunk, 256, cy * span, cx * span);
    assert(pow2_size(level) == span);
    lemma_square_ascends(
        by_sector,
        sectors,
        c.spec_x() * 8 - 256,
        c.spec_y() * 8 - 256,
        (8 * span) as nat,
        (8 * span) as nat,
    );
}

/// Every chunk a level emits is the chunk of one of its cells.
proof fn lemma_level_chunks_cells(
    counts: Seq<i32>,
    level: u8,
    size: int,
    span: int,
    by_sector: Seq<Vec<usize>>,
    n: nat,
)
    ensures
        forall|k: int|
            0 <= k < level_chunks(counts, level, size, span, by_sector, n).len() ==> exists|a: int|
                0 <= a < n && #[trigger] level_chunks(counts, level, size, span, by_sector, n)[k] == (
                    cell_chunk(a, size, span, level),
                    chunk_members(by_sector, cell_chunk(a, size, span, level)),
                ),
    decreases n,
{
    if n > 0 {
        lemma_level_chunks_cells(counts, level, size, span, by_sector, (n - 1) as nat);
        let p = level_chunks(counts, level, size, span, by_sector, (n - 1) as nat);
        let l = level_chunks(counts, level, size, span, by_sector, n);
        assert forall|k: int| 0 <= k < l.len() implies exists|a: int|
            0 <= a < n && #[trigger] l[k] == (
                cell_chunk(a, size, span, level),
                chunk_members(by_sector, cell_chunk(a, size, span, level)),
            ) by {
            if k < p.len() {
                assert(l[k] == p[k]);
                let a = choose|a: int|
                    0 <= a < n - 1 && #[trigger] p[k] == (
                        cell_chunk(a, size, span, level),
                        chunk_members(by_sector, cell_chunk(a, size, span, level)),
                    );
                assert(0 <= a < n);
            } else {
                assert(l[k] == (
                    cell_chunk(n - 1, size, span, level),
                    chunk_members(by_sector, cell_chunk(n - 1, size, span, level)),
                ));
            }
        }
    }
}

/// Every chunk one level emits lists its objects by sector, then index.
proof fn lemma_level_ascends(
    counts: Seq<i32>,
    level: u8,
    size: int,
    span: int,
    by_sector: Seq<Vec<usize>>,
    sectors: Seq<u32>,
)
    requires
        filed(by_sector, sectors),
        (span == 1 && size == 64 && level == 0) || (span == 2 && size == 32 && level == 1) || (span == 4 && size
            == 16 && level == 2) || (span == 8 && size == 8 && level == 3),
    ensures
        forall|k: int|
            0 <= k < level_chunks(counts, level, size, span, by_sector, (size * size) as nat).len() ==> ascends(
                (#[trigger] level_chunks(counts, level, size, span, by_sector, (size * size) as nat)[k]).1,
                sectors,
            ),
{
    let l = level_chunks(counts, level, size, span, by_sector, (size * size) as nat);
    lemma_level_chunks_cells(counts, level, size, span, by_sector, (size * size) as nat);
    assert forall|k: int| 0 <= k < l.len() implies ascends((#[trigger] l[k]).1, sectors) by {
        let a = choose|a: int|
            0 <= a < size * size && #[trigger] l[k] == (
                cell_chunk(a, size, span, level),
                chunk_members(by_sector, cell_chunk(a, size, span, level)),
            );
        lemma_cell_chunk_ascends(by_sector, sectors, a, size, span, level);
    }
}

/// Every chunk the four levels emit lists its objects by sector, then index.
proof fn lemma_all_levels_ascend(
    c0: Seq<i32>,
    c1: Seq<i32>,
    c2: Seq<i32>,
    c3: Seq<i32>,
    by_sector: Seq<Vec<usize>>,
    sectors: Seq<u32>,
)
    requires
        filed(by_sector, sectors),
    ensures
        forall|k: int|
            0 <= k < all_level_chunks(c0, c1, c2, c3, by_sector).len() ==> ascends(
                (#[trigger] all_level_chunks(c0, c1, c2, c3, by_sector)[k]).1,
                sectors,
            ),
{
    let l0 = level_chunks(c0, 0, 64, 1, by_sector, 4096);
    let l1 = level_chunks(c1, 1, 32, 2, by_sector, 1024);
    let l2 = level_chunks(c2, 2, 16, 4, by_sector, 256);
    let l3 = level_chunks(c3, 3, 8, 8, by_sector, 64);
    let all = all_level_chunks(c0, c1, c2, c3, by_sector);
    assert(all == l0 + l1 + l2 + l3);
    lemma_level_ascends(c0, 0, 64, 1, by_sector, sectors);
    lemma_level_ascends(c1, 1, 32, 2, by_sector, sectors);
    lemma_level_ascends(c2, 2, 16, 4, by_sector, sectors);
    lemma_level_ascends(c3, 3, 8, 8, by_sector, sectors);
    assert((64 * 64) as nat == 4096 && (32 * 32) as nat == 1024 && (16 * 16) as nat == 256 && (8 * 8) as nat == 64);
    assert forall|k: int| 0 <= k < all.len() implies ascends((#[trigger] all[k]).1, sectors) by {
        if k < l0.len() {
            assert(all[k] == l0[k]);
            assert(ascends(level_chunks(c0, 0, 64, 1, by_sector, (64 * 64) as nat)[k].1, sectors));
        } else if k < l0.len() + l1.len() {
            let j = k - l0.len();
            assert(all[k] == l1[j]);
            assert(ascends(level_chunks(c1, 1, 32, 2, by_sector, (32 * 32) as nat)[j].1, sectors));
        } else if k < l0.len() + l1.len() + l2.len() {
            let j = k - l0.len() - l1.len();
            assert(all[k] == l2[j]);
            assert(ascends(level_chunks(c2, 2, 16, 4, by_sector, (16 * 16) as nat)[j].1, sectors));
        } else {
            let j = k - l0.len() - l1.len() - l2.len();
            assert(all[k] == l3[j]);
            assert(ascends(level_chunks(c3, 3, 8, 8, by_sector, (8 * 8) as nat)[j].1, sectors));
        }
    }
}

/// Deciding a level whose coarser counts start at zero: a finer cell keeps
/// its count or drops to zero; one still counting above zero left its
/// block unmerged; a coarser cell counting above zero took in its finer
/// cells; a coarser cell ends either below the merge limit and above zero,
/// or marked; and a marked finer cell among cells below the limit stays
/// marked and marks its coarser cell.
proof fn lemma_decided_step(f0: Seq<i32>, z: Seq<i32>, f1: Seq<i32>, c1: Seq<i32>, size: int, c: int)
    requires
        2 <= size <= 64,
        size % 2 == 0,
        decided(f0, z, f1, c1, size),
        z.len() == (size / 2) * (size / 2),
        all_zero(z),
        0 <= c < size * size,
        f0.len() == size * size,
    ensures
        f1[c] == 0 || f1[c] == f0[c],
        f1[c] > 0 ==> c1[block_of(size, c)] == -100_000_000,
        c1[block_of(size, c)] > 0 ==> f1[c] == 0,
        c1[block_of(size, c)] == -100_000_000 || 0 < c1[block_of(size, c)] < 100_000,
        (f0[c] == -100_000_000 && forall|k: int| 0 <= k < size * size ==> #[trigger] f0[k] < 100_000) ==> (f1[c]
            == -100_000_000 && c1[block_of(size, c)] == -100_000_000),
{
    lemma_cell_of_block(size, c, 0);
    let b = block_of(size, c);
    assert(z[b] == 0);
    assert(f1[c] == fine_after(f0, z, size, c));
    assert(c1[b] == coarse_count(f0, z[b], size, (b % (size / 2)) * 2, (b / (size / 2)) * 2));
    let bx = (b % (size / 2)) * 2;
    let by = (b / (size / 2)) * 2;
    lemma_block_cells(size, b, bx, by);
    if f0[c] == -100_000_000 && forall|k: int| 0 <= k < size * size ==> #[trigger] f0[k] < 100_000 {
        let i0 = by * size + bx;
        assert(f0[i0] < 100_000 && f0[i0 + 1] < 100_000 && f0[i0 + size] < 100_000 && f0[i0 + size + 1] < 100_000);
        assert(c == i0 || c == i0 + 1 || c == i0 + size || c == i0 + size + 1);
        assert(block_sum(f0, size, bx, by) < 0);
    }
}

/// Each coarser count after deciding a level whose coarser counts start at
/// zero is below the merge limit.
proof fn lemma_decided_shape(f0: Seq<i32>, z: Seq<i32>, f1: Seq<i32>, c1: Seq<i32>, size: int)
    requires
        2 <= size <= 64,
        size % 2 == 0,
        decided(f0, z, f1, c1, size),
        z.len() == (size / 2) * (size / 2),
        all_zero(z),
    ensures
        forall|b: int| 0 <= b < (size / 2) * (size / 2) ==> #[trigger] c1[b] < 100_000,
{
    assert forall|b: int| 0 <= b < (size / 2) * (size / 2) implies #[trigger] c1[b] < 100_000 by {
        assert(z[b] == 0);
        assert(c1[b] == coarse_count(f0, z[b], size, (b % (size / 2)) * 2, (b / (size / 2)) * 2));
    }
}

/// The zone of sector `z` is emitted at no more than one level.
proof fn lemma_one_level(
    v0: Seq<i32>,
    z1: Seq<i32>,
    z2: Seq<i32>,
    z3: Seq<i32>,
    c0: Seq<i32>,
    c1a: Seq<i32>,
    c1: Seq<i32>,
    c2a: Seq<i32>,
    c2: Seq<i32>,
    c3: Seq<i32>,
    z: int,
)
    requires
        0 <= z < 512 * 512,
        v0.len() == 4096,
        z1.len() == 1024 && all_zero(z1),
        z2.len() == 256 && all_zero(z2),
        z3.len() == 64 && all_zero(z3),
        decided(v0, z1, c0, c1a, 64),
        decided(c1a, z2, c1, c2a, 32),
        decided(c2a, z3, c2, c3, 16),
    ensures
        c0[zone_cell(z, 1, 64)] > 0 ==> c1[zone_cell(z, 2, 32)] <= 0 && c2[zone_cell(z, 4, 16)] <= 0 && c3[zone_cell(
            z,
            8,
            8,
        )] <= 0,
        c1[zone_cell(z, 2, 32)] > 0 ==> c0[zone_cell(z, 1, 64)] <= 0 && c2[zone_cell(z, 4, 16)] <= 0 && c3[zone_cell(
            z,
            8,
            8,
        )] <= 0,
        c2[zone_cell(z, 4, 16)] > 0 ==> c0[zone_cell(z, 1, 64)] <= 0 && c1[zone_cell(z, 2, 32)] <= 0 && c3[zone_cell(
            z,
            8,
            8,
        )] <= 0,
        c3[zone_cell(z, 8, 8)] > 0 ==> c0[zone_cell(z, 1, 64)] <= 0 && c1[zone_cell(z, 2, 32)] <= 0 && c2[zone_cell(
            z,
            4,
            16,
        )] <= 0,
{
    lemma_zone_cell(z, 1, 64);
    lemma_zone_cell(z, 2, 32);
    lemma_zone_cell(z, 4, 16);
    lemma_zone_cell(z, 8, 8);
    let a0 = zone_cell(z, 1, 64);
    let a1 = zone_cell(z, 2, 32);
    let a2 = zone_cell(z, 4, 16);
    let a3 = zone_cell(z, 8, 8);
    assert((64int / 2) * (64int / 2) == 1024 && (32int / 2) * (32int / 2) == 256 && (16int / 2) * (16int / 2) == 64);
    lemma_decided_shape(v0, z1, c0, c1a, 64);
    lemma_decided_shape(c1a, z2, c1, c2a, 32);
    lemma_decided_step(v0, z1, c0, c1a, 64, a0);
    lemma_decided_step(c1a, z2, c1, c2a, 32, a1);
    lemma_decided_step(c2a, z3, c2, c3, 16, a2);
}

proof fn lemma_square_zones(by_sector: Seq<Vec<usize>>, sectors: Seq<u32>, x0: int, y0: int, n: nat, rows: nat)
    requires
        filed(by_sector, sectors),
        -256 <= x0,
        x0 + n <= 256,
        -256 <= y0,
        y0 + rows <= 256,
    ensures
        forall|k: int|
            0 <= k < square_members(by_sector, x0, y0, n, rows).len() ==> {
                &&& #[trigger] square_members(by_sector, x0, y0, n, rows)[k] < sectors.len()
                &&& y0 + 256 <= sectors[square_members(by_sector, x0, y0, n, rows)[k] as int] / 512 < y0 + 256 + rows
                &&& x0 + 256 <= sectors[square_members(by_sector, x0, y0, n, rows)[k] as int] % 512 < x0 + 256 + n
            },
    decreases rows,
{
    if rows > 0 {
        lemma_square_zones(by_sector, sectors, x0, y0, n, (rows - 1) as nat);
        let p = square_members(by_sector, x0, y0, n, (rows - 1) as nat);
        let y = y0 + rows - 1;
        lemma_row_ascends(by_sector, sectors, x0, y, n);
        let l = row_members(by_sector, x0, y, n);
        let r = square_members(by_sector, x0, y0, n, rows);
        assert(r == p + l);
        assert forall|k: int| 0 <= k < r.len() implies {
            &&& #[trigger] r[k] < sectors.len()
            &&& y0 + 256 <= sectors[r[k] as int] / 512 < y0 + 256 + rows
            &&& x0 + 256 <= sectors[r[k] as int] % 512 < x0 + 256 + n
        } by {
            if k >= p.len() {
                assert(r[k] == l[k - p.len()]);
                let t = sectors[r[k] as int] as int;
                let q = t - (y + 256) * 512;
                assert(0 <= q < 512);
                vstd::arithmetic::div_mod::lemma_fundamental_div_mod_converse(t, 512, y + 256, q);
            } else {
                assert(r[k] == p[k]);
            }
        }
    }
}

/// An object listed by the chunk of a cell lies in that cell.
proof fn lemma_member_cell(
    by_sector: Seq<Vec<usize>>,
    sectors: Seq<u32>,
    a: int,
    size: int,
    span: int,
    level: u8,
    k: int,
)
    requires
        filed(by_sector, sectors),
        0 <= a < size * size,
        (span == 1 && size == 64 && level == 0) || (span == 2 && size == 32 && level == 1) || (span == 4 && size
            == 16 && level == 2) || (span == 8 && size == 8 && level == 3),
        0 <= k < chunk_members(by_sector, cell_chunk(a, size, span, level)).len(),
    ensures
        chunk_members(by_sector, cell_chunk(a, size, span, level))[k] < sectors.len(),
        sectors[chunk_members(by_sector, cell_chunk(a, size, span, level))[k] as int] < 512 * 512,
        zone_cell(sectors[chunk_members(by_sector, cell_chunk(a, size, span, level))[k] as int] as int, span, size)
            == a,
{
    let cx = a % size;
    let cy = a / size;
    vstd::arithmetic::div_mod::lemma_fundamental_div_mod(a, size);
    assert(0 <= cy < size) by (nonlinear_arith)
        requires
            0 <= a < size * size,
            size > 0,
            cy == a / size,
    ;
    assert(cx * span + span <= 64 && cy * span + span <= 64) by (nonlinear_arith)
        requires
            0 <= cx < size,
            0 <= cy < size,
            size * span == 64,
            span >= 1,
    ;
    assert(cx * span >= 0 && cy * span >= 0) by (nonlinear_arith)
        requires
            0 <= cx,
            0 <= cy,
            span >= 1,
    ;
    let chunk = cx * span + cy * span * 256;
    let c = cell_chunk(a, size, span, level);
    assert(c.chunk as int == chunk);
    vstd::arithmetic::div_mod::lemma_fundamental_div_mod_converse(chunk, 256, cy * span, cx * span);
    assert(pow2_size(level) == span);
    let x0 = c.spec_x() * 8 - 256;
    let y0 = c.spec_y() * 8 - 256;
    let n = (8 * span) as nat;
    lemma_square_zones(by_sector, sectors, x0, y0, n, n);
    let m = chunk_members(by_sector, c);
    let e = m[k];
    let t = sectors[e as int] as int;
    assert(sectors[e as int] < 512 * 512) by {
        let q = t % 512;
        vstd::arithmetic::div_mod::lemma_fundamental_div_mod(t, 512);
    }
    let d = 8 * span;
    assert(cx * span * 8 == d * cx && cy * span * 8 == d * cy) by (nonlinear_arith)
        requires
            d == 8 * span,
    ;
    vstd::arithmetic::div_mod::lemma_fundamental_div_mod_converse(t % 512, d, cx, t % 512 - d * cx);
    vstd::arithmetic::div_mod::lemma_fundamental_div_mod_converse(t / 512, d, cy, t / 512 - d * cy);
}

/// The first `n` cells whose count is positive, in order.
pub open spec fn positive_cells(counts: Seq<i32>, n: nat) -> Seq<int>
    decreases n,
{
    if n == 0 {
        seq![]
    } else {
        let p = positive_cells(counts, (n - 1) as nat);
        if counts[n - 1] > 0 {
            p.push(n - 1)
        } else {
            p
        }
    }
}

/// The chunks of a level are those of its positive cells, which rise.
proof fn lemma_level_cells(counts: Seq<i32>, level: u8, size: int, span: int, by_sector: Seq<Vec<usize>>, n: nat)
    ensures
        level_chunks(counts, level, size, span, by_sector, n).len() == positive_cells(counts, n).len(),
        forall|k: int|
            0 <= k < positive_cells(counts, n).len() ==> {
                &&& 0 <= #[trigger] positive_cells(counts, n)[k] < n
                &&& counts[positive_cells(counts, n)[k]] > 0
                &&& level_chunks(counts, level, size, span, by_sector, n)[k] == (
                    cell_chunk(positive_cells(counts, n)[k], size, span, level),
                    chunk_members(by_sector, cell_chunk(positive_cells(counts, n)[k], size, span, level)),
                )
            },
        forall|a: int, b: int|
            0 <= a < b < positive_cells(counts, n).len() ==> #[trigger] positive_cells(counts, n)[a]
                < #[trigger] positive_cells(counts, n)[b],
    decreases n,
{
    if n > 0 {
        lemma_level_cells(counts, level, size, span, by_sector, (n - 1) as nat);
    }
}

/// No object is listed twice by the chunks the four levels emit: not in two
/// chunks, and not twice in one.
proof fn lemma_once(
    by_sector: Seq<Vec<usize>>,
    sectors: Seq<u32>,
    v0: Seq<i32>,
    z1: Seq<i32>,
    z2: Seq<i32>,
    z3: Seq<i32>,
    c0: Seq<i32>,
    c1a: Seq<i32>,
    c1: Seq<i32>,
    c2a: Seq<i32>,
    c2: Seq<i32>,
    c3: Seq<i32>,
    k1: int,
    k2: int,
    e: usize,
)
    requires
        filed(by_sector, sectors),
        v0.len() == 4096,
        z1.len() == 1024 && all_zero(z1),
        z2.len() == 256 && all_zero(z2),
        z3.len() == 64 && all_zero(z3),
        decided(v0, z1, c0, c1a, 64),
        decided(c1a, z2, c1, c2a, 32),
        decided(c2a, z3, c2, c3, 16),
        0 <= k1 < k2 < all_level_chunks(c0, c1, c2, c3, by_sector).len(),
    ensures
        !(all_level_chunks(c0, c1, c2, c3, by_sector)[k1].1.contains(e) && all_level_chunks(
            c0,
            c1,
            c2,
            c3,
            by_sector,
        )[k2].1.contains(e)),
{
    let l0 = level_chunks(c0, 0, 64, 1, by_sector, 4096);
    let l1 = level_chunks(c1, 1, 32, 2, by_sector, 1024);
    let l2 = level_chunks(c2, 2, 16, 4, by_sector, 256);
    let l3 = level_chunks(c3, 3, 8, 8, by_sector, 64);
    let all = all_level_chunks(c0, c1, c2, c3, by_sector);
    assert(all == l0 + l1 + l2 + l3);
    lemma_level_cells(c0, 0, 64, 1, by_sector, 4096);
    lemma_level_cells(c1, 1, 32, 2, by_sector, 1024);
    lemma_level_cells(c2, 2, 16, 4, by_sector, 256);
    lemma_level_cells(c3, 3, 8, 8, by_sector, 64);
    if all[k1].1.contains(e) && all[k2].1.contains(e) {
        let (lv1, j1) = level_at(l0.len(), l1.len(), l2.len(), k1);
        let (lv2, j2) = level_at(l0.len(), l1.len(), l2.len(), k2);
        let a1 = cell_at(c0, c1, c2, c3, lv1, j1);
        let a2 = cell_at(c0, c1, c2, c3, lv2, j2);
        lemma_entry(c0, c1, c2, c3, by_sector, sectors, k1, e);
        lemma_entry(c0, c1, c2, c3, by_sector, sectors, k2, e);
        let z = sectors[e as int] as int;
        lemma_one_level(v0, z1, z2, z3, c0, c1a, c1, c2a, c2, c3, z);
        if lv1 == lv2 {
            if lv1 == 0 {
                assert(positive_cells(c0, 4096)[j1] < positive_cells(c0, 4096)[j2]);
            } else if lv1 == 1 {
                assert(positive_cells(c1, 1024)[j1] < positive_cells(c1, 1024)[j2]);
            } else if lv1 == 2 {
                assert(positive_cells(c2, 256)[j1] < positive_cells(c2, 256)[j2]);
            } else {
                assert(positive_cells(c3, 64)[j1] < positive_cells(c3, 64)[j2]);
            }
        }
    }
}

/// The level of entry `k` of four lists of lengths `n0`, `n1`, `n2` and
/// then the rest, and its place in that level.
spec fn level_at(n0: nat, n1: nat, n2: nat, k: int) -> (int, int) {
    if k < n0 {
        (0, k)
    } else if k < n0 + n1 {
        (1, k - n0)
    } else if k < n0 + n1 + n2 {
        (2, k - n0 - n1)
    } else {
        (3, k - n0 - n1 - n2)
    }
}

/// The cell of entry `j` of level `lv`.
spec fn cell_at(c0: Seq<i32>, c1: Seq<i32>, c2: Seq<i32>, c3: Seq<i32>, lv: int, j: int) -> int {
    if lv == 0 {
        positive_cells(c0, 4096)[j]
    } else if lv == 1 {
        positive_cells(c1, 1024)[j]
    } else if lv == 2 {
        positive_cells(c2, 256)[j]
    } else {
        positive_cells(c3, 64)[j]
    }
}

/// An object listed by entry `k` lies in the cell of that entry, whose
/// count is positive.
proof fn lemma_entry(
    c0: Seq<i32>,
    c1: Seq<i32>,
    c2: Seq<i32>,
    c3: Seq<i32>,
    by_sector: Seq<Vec<usize>>,
    sectors: Seq<u32>,
    k: int,
    e: usize,
)
    requires
        filed(by_sector, sectors),
        0 <= k < all_level_chunks(c0, c1, c2, c3, by_sector).len(),
        all_level_chunks(c0, c1, c2, c3, by_sector)[k].1.contains(e),
    ensures
        ({
            let l0 = level_chunks(c0, 0, 64, 1, by_sector, 4096).len();
            let l1 = level_chunks(c1, 1, 32, 2, by_sector, 1024).len();
            let l2 = level_chunks(c2, 2, 16, 4, by_sector, 256).len();
            let (lv, j) = level_at(l0, l1, l2, k);
            let a = cell_at(c0, c1, c2, c3, lv, j);
            let t = sectors[e as int] as int;
            &&& e < sectors.len()
            &&& 0 <= t < 512 * 512
            &&& lv == 0 ==> 0 <= j < positive_cells(c0, 4096).len() && zone_cell(t, 1, 64) == a && c0[a] > 0
            &&& lv == 1 ==> 0 <= j < positive_cells(c1, 1024).len() && zone_cell(t, 2, 32) == a && c1[a] > 0
            &&& lv == 2 ==> 0 <= j < positive_cells(c2, 256).len() && zone_cell(t, 4, 16) == a && c2[a] > 0
            &&& lv == 3 ==> 0 <= j < positive_cells(c3, 64).len() && zone_cell(t, 8, 8) == a && c3[a] > 0
        }),
{
    let l0 = level_chunks(c0, 0, 64, 1, by_sector, 4096);
    let l1 = level_chunks(c1, 1, 32, 2, by_sector, 1024);
    let l2 = level_chunks(c2, 2, 16, 4, by_sector, 256);
    let l3 = level_chunks(c3, 3, 8, 8, by_sector, 64);
    let all = all_level_chunks(c0, c1, c2, c3, by_sector);
    assert(all == l0 + l1 + l2 + l3);
    lemma_level_cells(c0, 0, 64, 1, by_sector, 4096);
    lemma_level_cells(c1, 1, 32, 2, by_sector, 1024);
    lemma_level_cells(c2, 2, 16, 4, by_sector, 256);
    lemma_level_cells(c3, 3, 8, 8, by_sector, 64);
    let (lv, j) = level_at(l0.len(), l1.len(), l2.len(), k);
    let m = all[k].1;
    let q = choose|q: int| 0 <= q < m.len() && m[q] == e;
    if lv == 0 {
        assert(all[k] == l0[j]);
        let a = positive_cells(c0, 4096)[j];
        lemma_member_cell(by_sector, sectors, a, 64, 1, 0, q);
    } else if lv == 1 {
        assert(all[k] == l1[j]);
        let a = positive_cells(c1, 1024)[j];
        lemma_member_cell(by_sector, sectors, a, 32, 2, 1, q);
    } else if lv == 2 {
        assert(all[k] == l2[j]);
        let a = positive_cells(c2, 256)[j];
        lemma_member_cell(by_sector, sectors, a, 16, 4, 2, q);
    } else {
        assert(all[k] == l3[j]);
        let a = positive_cells(c3, 64)[j];
        lemma_member_cell(by_sector, sectors, a, 8, 8, 3, q);
    }
}

/// Whether some object is a portal.
pub open spec fn has_portal(prefabs: Seq<i32>) -> bool {
    exists|i: int| 0 <= i < prefabs.len() && is_portal(prefabs[i])
}

/// Deal objects into chunks as `ZDOMan.GetSaveClonePerChunk` does for a
/// world with no chunk map yet, given each object's sector
/// (`ZoneSystem.GetSectorIndex` of its position) and prefab: count objects
/// per size-0 chunk, merge 2 x 2 blocks upward while a merged chunk stays
/// under [`MAX_ZDOS_PER_MERGED_CHUNK`] (never the first row or column of a
/// level), then list size 0 first and the portal chunk last. Within a chunk,
/// objects come zone by zone, rows first, in file order; portals come
/// grouped by sector in order of first appearance.
pub fn partition(sectors: &Vec<u32>, prefabs: &Vec<i32>) -> (r: Vec<(ChunkIndex, Vec<usize>)>)
    requires
        sectors@.len() == prefabs@.len(),
        sectors@.len() < 0x1000_0000,
        forall|i: int| 0 <= i < sectors@.len() ==> #[trigger] sectors@[i] < 512 * 512,
    ensures
        has_portal(prefabs@) ==> r@.len() >= 1 && r@.last().0 == ChunkIndex::spec_portals() && (forall|k: int|
            0 <= k < r@.last().1@.len() ==> #[trigger] r@.last().1@[k] < prefabs@.len() && is_portal(
                prefabs@[r@.last().1@[k] as int],
            )) && (forall|i: int|
            0 <= i < prefabs@.len() && is_portal(#[trigger] prefabs@[i]) ==> r@.last().1@.contains(i as usize)),
        forall|k: int|
            0 <= k < r@.len() - if has_portal(prefabs@) {
                1int
            } else {
                0int
            } ==> #[trigger] chunk_holds(chunks_view(r@)[k], sectors@, prefabs@),
        forall|a: int, b: int|
            0 <= a <= b < r@.len() - if has_portal(prefabs@) {
                1int
            } else {
                0int
            } ==> #[trigger] r@[a].0.size <= #[trigger] r@[b].0.size,
        forall|k: int|
            0 <= k < r@.len() - (if has_portal(prefabs@) {
                1int
            } else {
                0int
            }) ==> ascends((#[trigger] chunks_view(r@)[k]).1, sectors@),
        forall|k1: int, k2: int, j: usize|
            0 <= k1 < k2 < r@.len() - (if has_portal(prefabs@) {
                1int
            } else {
                0int
            }) ==> !(#[trigger] chunks_view(r@)[k1].1.contains(j) && #[trigger] chunks_view(r@)[k2].1.contains(j)),
        forall|j: int|
            0 <= j < prefabs@.len() && !is_portal(#[trigger] prefabs@[j]) ==> exists|k: int|
                0 <= k < r@.len() - (if has_portal(prefabs@) {
                    1int
                } else {
                    0int
                }) && (#[trigger] chunks_view(r@)[k]).1.contains(j as usize),
{
    let n = sectors.len();
    let hashes = portal_hashes();
    let mut by_sector: Vec<Vec<usize>> = Vec::new();
    let mut s: usize = 0;
    while s < 512 * 512
        invariant
            s <= 512 * 512,
            by_sector@.len() == s,
            forall|t: int| 0 <= t < s ==> (#[trigger] by_sector@[t])@.len() == 0,
            lens_sum(by_sector@) == 0,
        decreases 512 * 512 - s,
    {
        let ghost before = by_sector@;
        by_sector.push(Vec::new());
        assert(by_sector@.drop_last() =~= before);
        s = s + 1;
    }
    let mut portals: Vec<(u32, usize)> = Vec::new();
    sort_objects(sectors, prefabs, &hashes, &mut by_sector, &mut portals);
    proof {
        lemma_portal_list(sectors@, prefabs@, n as int);
    }
    // Objects per size-0 chunk.
    let mut c0: Vec<i32> = vec![0; 4096];
    let mut s: usize = 0;
    while s < 512 * 512
        invariant
            s <= 512 * 512,
            by_sector@.len() == 512 * 512,
            c0@.len() == 4096,
            lens_sum(by_sector@) <= n,
            n < 0x1000_0000,
            forall|c: int| 0 <= c < 4096 ==> 0 <= #[trigger] c0@[c] <= lens_sum(by_sector@.take(s as int)),
            forall|t: int| 0 <= t < s && by_sector@[t]@.len() > 0 ==> c0@[#[trigger] zone_cell(t, 1, 64)] > 0,
        decreases 512 * 512 - s,
    {
        let ghost cbefore = c0@;
        proof {
            lemma_lens_sum_prefix(by_sector@, s as int + 1);
            assert(by_sector@.take(s + 1).drop_last() =~= by_sector@.take(s as int));
        }
        let len = by_sector[s].len();
        if len > 0 {
            let cx = s % 512 / 8;
            let cy = s / 512 / 8;
            assert(cy < 64 && cx < 64);
            let c = cy * 64 + cx;
            let v = c0[c] + len as i32;
            c0.set(c, v);
            assert(c == zone_cell(s as int, 1, 64));
        }
        proof {
            assert forall|t: int| 0 <= t < s + 1 && by_sector@[t]@.len() > 0 implies c0@[#[trigger] zone_cell(t, 1, 64)] > 0 by {
                lemma_zone_cell(t, 1, 64);
                if t < s {
                    assert(cbefore[zone_cell(t, 1, 64)] > 0);
                }
            }
        }
        s = s + 1;
    }
    proof {
        assert(by_sector@.take(512 * 512 as int) =~= by_sector@);
        assert(counts_bounded(c0@));
    }
    let mut c1: Vec<i32> = vec![0; 1024];
    let mut c2: Vec<i32> = vec![0; 256];
    let mut c3: Vec<i32> = vec![0; 64];
    let ghost v0 = c0@;
    let ghost z1 = c1@;
    let ghost z2 = c2@;
    let ghost z3 = c3@;
    decide_chunk_size(64, &mut c0, &mut c1);
    let ghost c1a = c1@;
    decide_chunk_size(32, &mut c1, &mut c2);
    let ghost c2a = c2@;
    decide_chunk_size(16, &mut c2, &mut c3);
    proof {
        assert forall|j: int|
            0 <= j < prefabs@.len() && !is_portal(#[trigger] prefabs@[j]) implies c0@[zone_cell(sectors@[j] as int, 1, 64)] > 0
            || c1@[zone_cell(sectors@[j] as int, 2, 32)] > 0 || c2@[zone_cell(sectors@[j] as int, 4, 16)] > 0
            || c3@[zone_cell(sectors@[j] as int, 8, 8)] > 0 by {
            let z = sectors@[j] as int;
            assert(by_sector@[z]@.contains(j as usize));
            assert(by_sector@[z]@.len() > 0);
            assert(v0[zone_cell(z, 1, 64)] > 0);
            lemma_some_level(v0, z1, z2, z3, c0@, c1a, c1@, c2a, c2@, c3@, z);
        }
    }
    let mut out: Vec<(ChunkIndex, Vec<usize>)> = Vec::new();
    let gs: Ghost<Seq<u32>> = Ghost(sectors@);
    let gp: Ghost<Seq<i32>> = Ghost(prefabs@);
    proof {
        assert forall|t: int, k: int|
            0 <= t < 512 * 512 && 0 <= k < by_sector@[t]@.len() implies #[trigger] by_sector@[t]@[k]
                < gs@.len() && gs@[by_sector@[t]@[k] as int] == t && !is_portal(gp@[by_sector@[t]@[k] as int]) by {
        }
    }
    emit_level(&c0, 0, 64, 1, &by_sector, &mut out, gs, gp);
    let ghost o0 = chunks_view(out@);
    assert(forall|j: int| 0 <= j < o0.len() ==> (#[trigger] o0[j]).0.size == 0) by {
        assert forall|j: int| 0 <= j < o0.len() implies (#[trigger] o0[j]).0.size == 0 by {
            assert(o0[j].0 == out@[j].0);
        }
    }
    emit_level(&c1, 1, 32, 2, &by_sector, &mut out, gs, gp);
    let ghost o1 = chunks_view(out@);
    assert(forall|j: int| o0.len() <= j < o1.len() ==> (#[trigger] o1[j]).0.size == 1) by {
        assert forall|j: int| o0.len() <= j < o1.len() implies (#[trigger] o1[j]).0.size == 1 by {
            assert(o1[j].0 == out@[j].0);
        }
    }
    emit_level(&c2, 2, 16, 4, &by_sector, &mut out, gs, gp);
    let ghost o2 = chunks_view(out@);
    assert(forall|j: int| o1.len() <= j < o2.len() ==> (#[trigger] o2[j]).0.size == 2) by {
        assert forall|j: int| o1.len() <= j < o2.len() implies (#[trigger] o2[j]).0.size == 2 by {
            assert(o2[j].0 == out@[j].0);
        }
    }
    emit_level(&c3, 3, 8, 8, &by_sector, &mut out, gs, gp);
    let ghost body = out@;
    proof {
        assert(chunks_view(body) =~= all_level_chunks(c0@, c1@, c2@, c3@, by_sector@));
        assert(filed(by_sector@, sectors@));
        lemma_all_levels_ascend(c0@, c1@, c2@, c3@, by_sector@, sectors@);
        assert forall|k1: int, k2: int, j: usize|
            0 <= k1 < k2 < body.len() implies !(#[trigger] chunks_view(body)[k1].1.contains(j)
            && #[trigger] chunks_view(body)[k2].1.contains(j)) by {
            lemma_once(by_sector@, sectors@, v0, z1, z2, z3, c0@, c1a, c1@, c2a, c2@, c3@, k1, k2, j);
        }
        assert forall|j: int| 0 <= j < prefabs@.len() && !is_portal(#[trigger] prefabs@[j]) implies exists|k: int|
            0 <= k < body.len() && (#[trigger] chunks_view(body)[k]).1.contains(j as usize) by {
            let z = sectors@[j] as int;
            lemma_covered(by_sector@, c0@, c1@, c2@, c3@, z, j as usize);
        }
    }
    assert(forall|j: int| o2.len() <= j < body.len() ==> (#[trigger] chunks_view(body)[j]).0.size == 3) by {
        assert forall|j: int| o2.len() <= j < body.len() implies (#[trigger] chunks_view(body)[j]).0.size == 3 by {
            assert(chunks_view(body)[j].0 == out@[j].0);
        }
    }
    proof {
        assert forall|k: int| 0 <= k < body.len() implies #[trigger] chunk_holds(chunks_view(body)[k], sectors@, prefabs@) by {
            if k < o2.len() {
                assert(chunks_view(body)[k] == o2[k]);
                if k < o1.len() {
                    assert(o2[k] == o1[k]);
                    if k < o0.len() {
                        assert(o1[k] == o0[k]);
                    }
                }
            }
        }
        assert forall|a: int, b: int| 0 <= a <= b < body.len() implies #[trigger] body[a].0.size <= #[trigger] body[b].0.size by {
            lemma_level_of(o0, o1, o2, chunks_view(body), a);
            lemma_level_of(o0, o1, o2, chunks_view(body), b);
            assert(chunks_view(body)[a].0 == body[a].0);
            assert(chunks_view(body)[b].0 == body[b].0);
        }
    }
    if portals.len() > 0 {
        let members = group_portals(&portals, Ghost(prefabs@), Ghost(sectors@));
        out.push((ChunkIndex::portals(), members));
        proof {
            assert(is_portal(prefabs@[portals@[0].1 as int]));
            assert(has_portal(prefabs@));
            assert(out@.drop_last() == body);
            assert forall|k2: int| 0 <= k2 < out@.len() - 1 implies #[trigger] chunk_holds(chunks_view(out@)[k2], sectors@, prefabs@) by {
                assert(chunks_view(out@)[k2] == chunks_view(body)[k2]);
            }
            assert forall|a: int, b: int| 0 <= a <= b < out@.len() - 1 implies #[trigger] out@[a].0.size <= #[trigger] out@[b].0.size by {
                assert(out@[a] == body[a] && out@[b] == body[b]);
            }
            assert forall|k: int| 0 <= k < out@.len() - 1 implies ascends((#[trigger] chunks_view(out@)[k]).1, sectors@) by {
                assert(chunks_view(out@)[k] == chunks_view(body)[k]);
            }
            assert forall|k1: int, k2: int, j: usize|
                0 <= k1 < k2 < out@.len() - 1 implies !(#[trigger] chunks_view(out@)[k1].1.contains(j)
                && #[trigger] chunks_view(out@)[k2].1.contains(j)) by {
                assert(chunks_view(out@)[k1] == chunks_view(body)[k1]);
                assert(chunks_view(out@)[k2] == chunks_view(body)[k2]);
            }
            assert forall|j: int| 0 <= j < prefabs@.len() && !is_portal(#[trigger] prefabs@[j]) implies exists|k: int|
                0 <= k < out@.len() - 1 && (#[trigger] chunks_view(out@)[k]).1.contains(j as usize) by {
                let k = choose|k: int| 0 <= k < body.len() && (#[trigger] chunks_view(body)[k]).1.contains(j as usize);
                assert(chunks_view(out@)[k] == chunks_view(body)[k]);
            }
        }
    } else {
        proof {
            if has_portal(prefabs@) {
                let k = choose|k: int| 0 <= k < prefabs@.len() && is_portal(prefabs@[k]);
                assert(exists|q: int| 0 <= q < portals@.len() && portals@[q].1 == k);
            }
            assert(!has_portal(prefabs@));
        }
    }
    out
}

/// The size of chunk `k` of a list built level by level.
proof fn lemma_level_of(
    o0: Seq<(ChunkIndex, Seq<usize>)>,
    o1: Seq<(ChunkIndex, Seq<usize>)>,
    o2: Seq<(ChunkIndex, Seq<usize>)>,
    o3: Seq<(ChunkIndex, Seq<usize>)>,
    k: int,
)
    requires
        0 <= k < o3.len(),
        o0.len() <= o1.len() <= o2.len() <= o3.len(),
        o3.take(o2.len() as int) == o2,
        o2.take(o1.len() as int) == o1,
        o1.take(o0.len() as int) == o0,
        forall|j: int| 0 <= j < o0.len() ==> (#[trigger] o0[j]).0.size == 0,
        forall|j: int| o0.len() <= j < o1.len() ==> (#[trigger] o1[j]).0.size == 1,
        forall|j: int| o1.len() <= j < o2.len() ==> (#[trigger] o2[j]).0.size == 2,
        forall|j: int| o2.len() <= j < o3.len() ==> (#[trigger] o3[j]).0.size == 3,
    ensures
        o3[k].0.size == if k < o0.len() {
            0u8
        } else if k < o1.len() {
            1u8
        } else if k < o2.len() {
            2u8
        } else {
            3u8
        },
{
    if k < o2.len() {
        assert(o3[k] == o2[k]);
        if k < o1.len() {
            assert(o2[k] == o1[k]);
            if k < o0.len() {
                assert(o1[k] == o0[k]);
            }
        }
    }
}

/// Portals grouped by sector in order of first appearance, each group in
/// file order.
fn group_portals(portals: &Vec<(u32, usize)>, gp: Ghost<Seq<i32>>, gs: Ghost<Seq<u32>>) -> (members: Vec<usize>)
    requires
        forall|k: int|
            0 <= k < portals@.len() ==> (#[trigger] portals@[k]).1 < gp@.len() && is_portal(
                gp@[portals@[k].1 as int],
            ),
    ensures
        forall|k: int|
            0 <= k < members@.len() ==> #[trigger] members@[k] < gp@.len() && is_portal(gp@[members@[k] as int]),
        forall|k: int| 0 <= k < portals@.len() ==> members@.contains((#[trigger] portals@[k]).1),
{
    let mut order: Vec<u32> = Vec::new();
    let mut grouped: Vec<Vec<usize>> = Vec::new();
    let mut j: usize = 0;
    while j < portals.len()
        invariant
            j <= portals@.len(),
            order@.len() == grouped@.len(),
            forall|k: int|
                0 <= k < portals@.len() ==> (#[trigger] portals@[k]).1 < gp@.len() && is_portal(
                    gp@[portals@[k].1 as int],
                ),
            forall|g: int, q: int|
                0 <= g < grouped@.len() && 0 <= q < grouped@[g]@.len() ==> #[trigger] grouped@[g]@[q]
                    < gp@.len() && is_portal(gp@[grouped@[g]@[q] as int]),
            forall|k: int| 0 <= k < j ==> exists|g: int| 0 <= g < grouped@.len() && grouped@[g]@.contains(
                #[trigger] portals@[k].1,
            ),
        decreases portals@.len() - j,
    {
        let (sec, idx) = portals[j];
        let mut g: usize = 0;
        while g < order.len() && order[g] != sec
            invariant
                g <= order@.len(),
            decreases order@.len() - g,
        {
            g = g + 1;
        }
        let ghost before = grouped@;
        if g == order.len() {
            order.push(sec);
            let mut v: Vec<usize> = Vec::new();
            v.push(idx);
            grouped.push(v);
            proof {
                assert(grouped@[g as int]@[0] == idx);
                assert(grouped@[g as int]@.contains(idx));
                assert forall|k: int| 0 <= k < j implies exists|g2: int| 0 <= g2 < grouped@.len() && grouped@[g2]@.contains(
                    #[trigger] portals@[k].1,
                ) by {
                    let g2 = choose|g2: int| 0 <= g2 < before.len() && before[g2]@.contains(portals@[k].1);
                    assert(grouped@[g2] == before[g2]);
                }
            }
        } else {
            grouped[g].push(idx);
            proof {
                assert(grouped@[g as int]@.last() == idx);
                assert(grouped@[g as int]@.contains(idx));
                assert forall|k: int| 0 <= k < j implies exists|g2: int| 0 <= g2 < grouped@.len() && grouped@[g2]@.contains(
                    #[trigger] portals@[k].1,
                ) by {
                    let g2 = choose|g2: int| 0 <= g2 < before.len() && before[g2]@.contains(portals@[k].1);
                    if g2 == g {
                        let q = choose|q: int| 0 <= q < before[g2]@.len() && before[g2]@[q] == portals@[k].1;
                        assert(grouped@[g2]@[q] == before[g2]@[q]);
                    } else {
                        assert(grouped@[g2] == before[g2]);
                    }
                }
                assert forall|g3: int, q: int|
                    0 <= g3 < grouped@.len() && 0 <= q < grouped@[g3]@.len() implies #[trigger] grouped@[g3]@[q]
                        < gp@.len() && is_portal(gp@[grouped@[g3]@[q] as int]) by {
                    if g3 == g && q < before[g3]@.len() {
                        assert(grouped@[g3]@[q] == before[g3]@[q]);
                    }
                }
            }
        }
        j = j + 1;
    }
    let mut members: Vec<usize> = Vec::new();
    let mut g: usize = 0;
    while g < grouped.len()
        invariant
            g <= grouped@.len(),
            forall|g2: int, q: int|
                0 <= g2 < grouped@.len() && 0 <= q < grouped@[g2]@.len() ==> #[trigger] grouped@[g2]@[q]
                    < gp@.len() && is_portal(gp@[grouped@[g2]@[q] as int]),
            forall|k: int|
                0 <= k < members@.len() ==> #[trigger] members@[k] < gp@.len() && is_portal(gp@[members@[k] as int]),
            forall|g2: int, q: int| 0 <= g2 < g && 0 <= q < grouped@[g2]@.len() ==> members@.contains(
                #[trigger] grouped@[g2]@[q],
            ),
        decreases grouped@.len() - g,
    {
        let ghost m0 = members@;
        let list = &grouped[g];
        let mut q: usize = 0;
        while q < list.len()
            invariant
                q <= list@.len(),
                list@ == grouped@[g as int]@,
                g < grouped@.len(),
                m0.len() <= members@.len(),
                members@.take(m0.len() as int) == m0,
                forall|g2: int, q2: int|
                    0 <= g2 < grouped@.len() && 0 <= q2 < grouped@[g2]@.len() ==> #[trigger] grouped@[g2]@[q2]
                        < gp@.len() && is_portal(gp@[grouped@[g2]@[q2] as int]),
                forall|k: int|
                    0 <= k < members@.len() ==> #[trigger] members@[k] < gp@.len() && is_portal(gp@[members@[k] as int]),
                forall|q2: int| 0 <= q2 < q ==> members@.contains(#[trigger] list@[q2]),
            decreases list@.len() - q,
        {
            let ghost mb = members@;
            members.push(list[q]);
            proof {
                assert(members@.take(m0.len() as int) =~= mb.take(m0.len() as int));
                assert forall|q2: int| 0 <= q2 < q + 1 implies members@.contains(#[trigger] list@[q2]) by {
                    if q2 < q {
                        let w = choose|w: int| 0 <= w < mb.len() && mb[w] == list@[q2];
                        assert(members@[w] == mb[w]);
                    } else {
                        assert(members@[members@.len() - 1] == list@[q2]);
                    }
                }
            }
            q = q + 1;
        }
        proof {
            assert forall|g2: int, q2: int| 0 <= g2 < g + 1 && 0 <= q2 < grouped@[g2]@.len() implies members@.contains(
                #[trigger] grouped@[g2]@[q2],
            ) by {
                if g2 < g {
                    let w = choose|w: int| 0 <= w < m0.len() && m0[w] == grouped@[g2]@[q2];
                    assert(members@[w] == m0[w]);
                }
            }
        }
        g = g + 1;
    }
    proof {
        assert forall|k: int| 0 <= k < portals@.len() implies members@.contains((#[trigger] portals@[k]).1) by {
            let g2 = choose|g2: int| 0 <= g2 < grouped@.len() && grouped@[g2]@.contains(portals@[k].1);
            let q = choose|q: int| 0 <= q < grouped@[g2]@.len() && grouped@[g2]@[q] == portals@[k].1;
            assert(members@.contains(grouped@[g2]@[q]));
        }
    }
    members
}

} // verus!
