//! The two string hashes the game turns into ZDO keys.
//!
//! `stable_hash` is Valheim's `GetStableHashCode`, used for prefab ids and most
//! property keys: the UTF-16 code units of the string, up to the first NUL,
//! are folded two at a time with wrapping 32-bit arithmetic.
//!
//! `animator_key` covers the keys `ZSyncAnimation` writes: `438569` plus
//! Unity's `Animator.StringToHash`, which is CRC-32 of the UTF-8 bytes.

use vstd::prelude::*;
use vstd::wrapping::i32_specs;

verus! {

/// The UTF-16 code units of one character.
pub open spec fn utf16_of_char(c: char) -> Seq<u16> {
    let v = c as u32;
    if v < 0x10000 {
        seq![v as u16]
    } else {
        let w = (v - 0x10000) as u32;
        seq![(0xD800 + w / 1024) as u16, (0xDC00 + w % 1024) as u16]
    }
}

/// The UTF-16 encoding of a character sequence.
pub open spec fn utf16(cs: Seq<char>) -> Seq<u16>
    decreases cs.len(),
{
    if cs.len() == 0 {
        seq![]
    } else {
        utf16(cs.drop_last()) + utf16_of_char(cs.last())
    }
}

/// One step of `GetStableHashCode`: `((h << 5) + h) ^ unit`, wrapping.
pub open spec fn hash_step(h: i32, unit: u16) -> i32 {
    i32_specs::wrapping_mul(h, 33) ^ (unit as i32)
}

/// `hash_step` folded over `units` from the left, starting at `h`.
pub open spec fn fold_hash(h: i32, units: Seq<u16>) -> i32
    decreases units.len(),
{
    if units.len() == 0 {
        h
    } else {
        hash_step(fold_hash(h, units.drop_last()), units.last())
    }
}

/// The units at even positions.
pub open spec fn evens(u: Seq<u16>) -> Seq<u16> {
    Seq::new(((u.len() + 1) / 2) as nat, |k: int| u[2 * k])
}

/// The units at odd positions.
pub open spec fn odds(u: Seq<u16>) -> Seq<u16> {
    Seq::new((u.len() / 2) as nat, |k: int| u[2 * k + 1])
}

/// How many units come before the first NUL (all of them when there is none).
pub open spec fn nul_free_len(u: Seq<u16>) -> nat
    decreases u.len(),
{
    if u.len() == 0 || u[0] == 0 {
        0
    } else {
        1 + nul_free_len(u.drop_first())
    }
}

/// `GetStableHashCode` of a sequence of UTF-16 units: the units before the
/// first NUL, even ones folded into one accumulator and odd ones into the
/// other, both seeded with 5381, then combined.
pub open spec fn stable_hash_units(u: Seq<u16>) -> i32 {
    let p = u.take(nul_free_len(u) as int);
    i32_specs::wrapping_add(
        fold_hash(5381, evens(p)),
        i32_specs::wrapping_mul(fold_hash(5381, odds(p)), 1_566_083_941),
    )
}

/// `GetStableHashCode` of a string.
pub open spec fn spec_stable_hash(s: Seq<char>) -> i32 {
    stable_hash_units(utf16(s))
}

proof fn lemma_nul_free_props(u: Seq<u16>)
    ensures
        nul_free_len(u) <= u.len(),
        forall|j: int| 0 <= j < nul_free_len(u) ==> u[j] != 0,
        nul_free_len(u) < u.len() ==> u[nul_free_len(u) as int] == 0,
    decreases u.len(),
{
    if u.len() > 0 && u[0] != 0 {
        lemma_nul_free_props(u.drop_first());
        assert forall|j: int| 0 <= j < nul_free_len(u) implies u[j] != 0 by {
            if j > 0 {
                assert(u[j] == u.drop_first()[j - 1]);
            }
        }
    }
}

proof fn lemma_utf16_append(a: Seq<char>, b: Seq<char>)
    ensures
        utf16(a + b) == utf16(a) + utf16(b),
    decreases b.len(),
{
    if b.len() == 0 {
        assert(a + b =~= a);
        assert(utf16(a) + utf16(b) =~= utf16(a));
    } else {
        lemma_utf16_append(a, b.drop_last());
        assert((a + b).drop_last() =~= a + b.drop_last());
        assert((a + b).last() == b.last());
        assert(utf16(a + b) =~= utf16(a) + utf16(b));
    }
}

/// `GetStableHashCode` stops at the first NUL: whatever follows one does not
/// change the hash.
pub proof fn lemma_stable_hash_stops_at_nul(s: Seq<char>, t: Seq<char>)
    ensures
        spec_stable_hash(s + seq!['\0'] + t) == spec_stable_hash(s),
{
    let a = utf16(s);
    lemma_utf16_append(s, seq!['\0']);
    lemma_utf16_append(s + seq!['\0'], t);
    assert(seq!['\0'].drop_last() =~= Seq::<char>::empty());
    assert(utf16(Seq::<char>::empty()) =~= Seq::<u16>::empty());
    assert(('\0' as u32) == 0);
    assert(utf16_of_char('\0') =~= seq![0u16]);
    assert(utf16(seq!['\0']) =~= utf16(Seq::<char>::empty()) + utf16_of_char('\0'));
    assert(utf16(seq!['\0']) =~= seq![0u16]);
    let u = a + seq![0u16] + utf16(t);
    assert(utf16(s + seq!['\0'] + t) =~= u);
    lemma_nul_free_props(a);
    let m = nul_free_len(a);
    assert forall|j: int| 0 <= j < m implies u[j] != 0 by {
        assert(u[j] == a[j]);
    }
    if m < a.len() {
        assert(u[m as int] == a[m as int]);
    } else {
        assert(u[a.len() as int] == 0);
    }
    lemma_nul_free_len(u, m as int);
    assert(u.take(m as int) =~= a.take(m as int));
}

proof fn lemma_nul_free_len(u: Seq<u16>, i: int)
    requires
        0 <= i <= u.len(),
        forall|j: int| 0 <= j < i ==> u[j] != 0,
        i == u.len() || u[i] == 0,
    ensures
        nul_free_len(u) == i,
    decreases u.len(),
{
    if u.len() > 0 && u[0] != 0 {
        lemma_nul_free_len(u.drop_first(), i - 1);
    }
}

fn utf16_units(s: &str) -> (units: Vec<u16>)
    ensures
        units@ == utf16(s@),
{
    let mut units: Vec<u16> = Vec::new();
    let ghost cs = s@;
    for c in it: s.chars()
        invariant
            it.seq() == cs,
            units@ == utf16(cs.take(it.index() as int)),
    {
        let ghost k = it.index() as int;
        assert(cs.take(k + 1).drop_last() =~= cs.take(k));
        let v = c as u32;
        if v < 0x10000 {
            units.push(v as u16);
        } else {
            let w = v - 0x10000;
            units.push((0xD800 + w / 1024) as u16);
            units.push((0xDC00 + w % 1024) as u16);
        }
        assert(units@ =~= utf16(cs.take(k + 1)));
    }
    assert(cs.take(cs.len() as int) =~= cs);
    units
}

/// Valheim's `GetStableHashCode`.
pub fn stable_hash(s: &str) -> (h: i32)
    ensures
        h == spec_stable_hash(s@),
{
    let units = utf16_units(s);
    let ghost u = units@;
    let mut a: i32 = 5381;
    let mut b: i32 = 5381;
    let mut i: usize = 0;
    let n = units.len();
    while i < n && units[i] != 0
        invariant_except_break
            n == u.len(),
            i <= n,
            i % 2 == 0,
            forall|j: int| 0 <= j < i ==> u[j] != 0,
            a == fold_hash(5381, evens(u.take(i as int))),
            b == fold_hash(5381, odds(u.take(i as int))),
        invariant
            units@ == u,
        ensures
            i <= n,
            forall|j: int| 0 <= j < i ==> u[j] != 0,
            i == n || u[i as int] == 0,
            a == fold_hash(5381, evens(u.take(i as int))),
            b == fold_hash(5381, odds(u.take(i as int))),
        decreases n - i,
    {
        let ghost p = u.take(i as int);
        assert(evens(u.take(i + 1)) =~= evens(p).push(u[i as int]));
        assert(odds(u.take(i + 1)) =~= odds(p));
        assert(evens(p).push(u[i as int]).drop_last() =~= evens(p));
        a = a.wrapping_mul(33) ^ (units[i] as i32);
        if i == n - 1 || units[i + 1] == 0 {
            i = i + 1;
            break;
        }
        assert(evens(u.take(i + 2)) =~= evens(u.take(i + 1)));
        assert(odds(u.take(i + 2)) =~= odds(p).push(u[i + 1]));
        assert(odds(p).push(u[i + 1]).drop_last() =~= odds(p));
        b = b.wrapping_mul(33) ^ (units[i + 1] as i32);
        i = i + 2;
    }
    proof {
        lemma_nul_free_len(u, i as int);
    }
    a.wrapping_add(b.wrapping_mul(1_566_083_941))
}


/// Offset `ZSyncAnimation` adds to a parameter hash to get its ZDO key.
pub const ANIMATOR_KEY_BASE: i32 = 438_569;

/// One bit of the reflected CRC-32 (IEEE) register update.
pub open spec fn crc_bit(c: u32) -> u32 {
    if c & 1 != 0 {
        (c >> 1) ^ 0xEDB8_8320
    } else {
        c >> 1
    }
}

/// `crc_bit` applied `k` times.
pub open spec fn crc_bits(c: u32, k: nat) -> u32
    decreases k,
{
    if k == 0 {
        c
    } else {
        crc_bits(crc_bit(c), (k - 1) as nat)
    }
}

/// The CRC-32 register after feeding `bytes` into register `c`.
pub open spec fn crc_update(c: u32, bytes: Seq<u8>) -> u32
    decreases bytes.len(),
{
    if bytes.len() == 0 {
        c
    } else {
        crc_bits(crc_update(c, bytes.drop_last()) ^ (bytes.last() as u32), 8)
    }
}

/// The `i32` with the same 32 bits as `x`.
pub open spec fn i32_from_bits(x: u32) -> i32 {
    if x < 0x8000_0000 {
        x as i32
    } else {
        (x - 0x1_0000_0000) as i32
    }
}

/// Unity's `Animator.StringToHash`: CRC-32 of the UTF-8 bytes, as an `i32`.
pub open spec fn spec_animator_hash(name: Seq<char>) -> i32 {
    i32_from_bits(!crc_update(0xFFFF_FFFF, vstd::utf8::encode_utf8(name)))
}

/// The ZDO key `ZSyncAnimation` stores a synced parameter under.
pub open spec fn spec_animator_key(name: Seq<char>) -> i32 {
    i32_specs::wrapping_add(ANIMATOR_KEY_BASE, spec_animator_hash(name))
}

/// Reinterpret 32 bits as an `i32`.
pub fn u32_bits_to_i32(x: u32) -> (r: i32)
    ensures
        r == i32_from_bits(x),
{
    if x < 0x8000_0000 {
        x as i32
    } else {
        ((x - 0x8000_0000) as i32) + i32::MIN
    }
}

/// Unity `Animator.StringToHash`: CRC-32 (IEEE) of the name's bytes.
pub fn animator_hash(name: &str) -> (h: i32)
    ensures
        h == spec_animator_hash(name@),
{
    let bytes = name.as_bytes();
    let ghost bs = bytes@;
    let mut crc: u32 = 0xFFFF_FFFF;
    let mut i: usize = 0;
    while i < bytes.len()
        invariant
            bytes@ == bs,
            i <= bs.len(),
            crc == crc_update(0xFFFF_FFFF, bs.take(i as int)),
        decreases bs.len() - i,
    {
        assert(bs.take(i + 1).drop_last() =~= bs.take(i as int));
        crc = crc ^ (bytes[i] as u32);
        let mut k: u32 = 0;
        let ghost start = crc;
        while k < 8
            invariant
                k <= 8,
                crc == crc_bits(start, k as nat),
            decreases 8 - k,
        {
            proof {
                lemma_crc_bits_step(start, k as nat);
            }
            crc = if crc & 1 != 0 {
                (crc >> 1) ^ 0xEDB8_8320
            } else {
                crc >> 1
            };
            k = k + 1;
        }
        i = i + 1;
    }
    assert(bs.take(bs.len() as int) =~= bs);
    u32_bits_to_i32(!crc)
}

proof fn lemma_crc_bits_step(c: u32, k: nat)
    ensures
        crc_bits(c, k + 1) == crc_bit(crc_bits(c, k)),
    decreases k,
{
    if k > 0 {
        lemma_crc_bits_step(crc_bit(c), (k - 1) as nat);
    } else {
        reveal_with_fuel(crc_bits, 2);
    }
}

/// The ZDO key `ZSyncAnimation` stores a synced parameter under.
pub fn animator_key(name: &str) -> (k: i32)
    ensures
        k == spec_animator_key(name@),
{
    ANIMATOR_KEY_BASE.wrapping_add(animator_hash(name))
}

} // verus!
