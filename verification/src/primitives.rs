//! Leaf types of the save formats, matching C# `BinaryWriter` / `ZPackage`
//! encodings. Floating-point values are carried as their IEEE-754 bit
//! patterns, which is exactly what the files hold.

use crate::seqcodec::{
    lemma_pair_roundtrip, parse_pair, read_pair, ser_pair,
    all_encodable, counted_encodable, lemma_counted_roundtrip, models, parse_counted,
    read_counted, ser_counted, write_counted,
};
use crate::text::str_from_utf8;
use crate::wire::{append_bytes, take_bytes, Wire};
use vstd::prelude::*;
use vstd::utf8::{decode_utf8, encode_utf8, valid_utf8};

verus! {

// ---------------------------------------------------------------- 7-bit lengths

/// `BinaryWriter.Write7BitEncodedInt`: seven bits per byte, low first, the
/// high bit set on every byte but the last.
pub open spec fn seven_bit_ser(v: nat) -> Seq<u8>
    decreases v,
{
    if v < 128 {
        seq![v as u8]
    } else {
        seq![(v % 128 + 128) as u8] + seven_bit_ser(v / 128)
    }
}

/// The value of the 7-bit groups at the front of `b`, where the first of them
/// is group `k` of the number. The fifth group only has room for the top four
/// bits of a `u32`, and a sixth byte is refused.
pub open spec fn seven_bit_groups(b: Seq<u8>, k: nat) -> Option<(nat, int)>
    decreases b.len(),
{
    if b.len() == 0 || k > 4 {
        None
    } else {
        let byte = b[0];
        let digit: nat = if k == 4 {
            (byte % 16) as nat
        } else {
            (byte % 128) as nat
        };
        if byte < 128 {
            Some((digit, 1))
        } else if k == 4 {
            None
        } else {
            match seven_bit_groups(b.drop_first(), k + 1) {
                Some((v, n)) => Some((digit + 128 * v, n + 1)),
                None => None,
            }
        }
    }
}

/// A 7-bit encoded length off the front of `b` (`BinaryReader.Read7BitEncodedInt`).
pub open spec fn seven_bit_parse(b: Seq<u8>) -> Option<(nat, int)> {
    seven_bit_groups(b, 0)
}

/// The largest value (exclusive) groups from `k` on can carry.
pub open spec fn seven_bit_bound(k: nat) -> nat {
    if k == 0 {
        0x1_0000_0000
    } else if k == 1 {
        0x200_0000
    } else if k == 2 {
        0x4_0000
    } else if k == 3 {
        0x800
    } else {
        16
    }
}

proof fn lemma_seven_bit_groups(v: nat, k: nat, rest: Seq<u8>)
    requires
        k <= 4,
        v < seven_bit_bound(k),
    ensures
        seven_bit_groups(seven_bit_ser(v) + rest, k) == Some((v, seven_bit_ser(v).len() as int)),
    decreases v,
{
    let b = seven_bit_ser(v) + rest;
    if v < 128 {
        assert(b[0] == v as u8);
    } else {
        let tail = seven_bit_ser(v / 128);
        assert(b.drop_first() =~= tail + rest);
        lemma_seven_bit_groups(v / 128, k + 1, rest);
    }
}

/// Writing a length below 2^32 then reading it gives it back.
pub proof fn lemma_seven_bit_roundtrip(v: nat, rest: Seq<u8>)
    requires
        v < 0x1_0000_0000,
    ensures
        seven_bit_parse(seven_bit_ser(v) + rest) == Some((v, seven_bit_ser(v).len() as int)),
{
    lemma_seven_bit_groups(v, 0, rest);
}

fn read_seven_bit_groups(buf: &[u8], pos: usize, k: u8) -> (r: Option<(u64, usize)>)
    requires
        pos <= buf@.len(),
        k <= 4,
    ensures
        match r {
            Some((v, p)) => pos < p <= buf@.len() && v < seven_bit_bound(k as nat)
                && seven_bit_groups(buf@.skip(pos as int), k as nat) == Some((v as nat, p - pos)),
            None => seven_bit_groups(buf@.skip(pos as int), k as nat) is None,
        },
    decreases buf@.len() - pos,
{
    if pos >= buf.len() {
        return None;
    }
    let byte = buf[pos];
    let digit: u64 = if k == 4 {
        (byte % 16) as u64
    } else {
        (byte % 128) as u64
    };
    assert(buf@.skip(pos as int)[0] == byte);
    if byte < 128 {
        Some((digit, pos + 1))
    } else if k == 4 {
        None
    } else {
        assert(buf@.skip(pos as int).drop_first() =~= buf@.skip(pos + 1));
        match read_seven_bit_groups(buf, pos + 1, k + 1) {
            Some((v, p)) => Some((digit + 128 * v, p)),
            None => None,
        }
    }
}

/// Read a 7-bit encoded length at `pos`.
pub fn read_seven_bit(buf: &[u8], pos: usize) -> (r: Option<(u64, usize)>)
    requires
        pos <= buf@.len(),
    ensures
        match r {
            Some((v, p)) => pos < p <= buf@.len() && v < 0x1_0000_0000 && seven_bit_parse(
                buf@.skip(pos as int),
            ) == Some((v as nat, p - pos)),
            None => seven_bit_parse(buf@.skip(pos as int)) is None,
        },
{
    read_seven_bit_groups(buf, pos, 0)
}

/// Write `v` as a 7-bit encoded length.
pub fn write_seven_bit(out: &mut Vec<u8>, v: u64)
    ensures
        final(out)@ == old(out)@ + seven_bit_ser(v as nat),
    decreases v,
{
    if v < 128 {
        out.push(v as u8);
        assert(out@ =~= old(out)@ + seven_bit_ser(v as nat));
    } else {
        out.push((v % 128 + 128) as u8);
        write_seven_bit(out, v / 128);
        assert(out@ =~= old(out)@ + seven_bit_ser(v as nat));
    }
}

// ---------------------------------------------------------------- NumItems counts

/// The largest count (exclusive) a `NumItems` field can carry: `0x8000` in the
/// wide form, 256 in the one-byte form of older worlds.
pub open spec fn num_items_limit(wide: bool) -> nat {
    if wide {
        0x8000
    } else {
        0x100
    }
}

/// `ZPackage.WriteNumItems`: one byte below 128 (or always, in the narrow
/// form), else two bytes big-endian with the high bit set.
pub open spec fn num_items_ser(count: nat, wide: bool) -> Seq<u8> {
    if count < 128 || (!wide && count < 256) {
        seq![count as u8]
    } else {
        seq![(count / 256 + 128) as u8, (count % 256) as u8]
    }
}

/// `ZPackage.ReadNumItems`.
pub open spec fn num_items_parse(b: Seq<u8>, wide: bool) -> Option<(nat, int)> {
    if b.len() == 0 {
        None
    } else if wide && b[0] >= 128 {
        if b.len() < 2 {
            None
        } else {
            Some((((b[0] - 128) * 256 + b[1]) as nat, 2))
        }
    } else {
        Some((b[0] as nat, 1))
    }
}

/// A count within the limit reads back as written.
pub proof fn lemma_num_items_roundtrip(count: nat, wide: bool, rest: Seq<u8>)
    requires
        count < num_items_limit(wide),
    ensures
        num_items_parse(num_items_ser(count, wide) + rest, wide) == Some(
            (count, num_items_ser(count, wide).len() as int),
        ),
{
    let b = num_items_ser(count, wide) + rest;
    if count < 128 || (!wide && count < 256) {
        assert(b[0] == count as u8);
    } else {
        assert(b[0] == (count / 256 + 128) as u8);
        assert(b[1] == (count % 256) as u8);
    }
}

/// Read a `NumItems` count at `pos`.
pub fn read_num_items(buf: &[u8], pos: usize, wide: bool) -> (r: Option<(usize, usize)>)
    requires
        pos <= buf@.len(),
    ensures
        match r {
            Some((c, p)) => pos < p <= buf@.len() && num_items_parse(buf@.skip(pos as int), wide)
                == Some((c as nat, p - pos)),
            None => num_items_parse(buf@.skip(pos as int), wide) is None,
        },
{
    if pos >= buf.len() {
        return None;
    }
    let first = buf[pos];
    if wide && first >= 128 {
        if pos + 1 >= buf.len() {
            return None;
        }
        let second = buf[pos + 1];
        Some((((first - 128) as usize) * 256 + second as usize, pos + 2))
    } else {
        Some((first as usize, pos + 1))
    }
}

/// Why a count could not be written.
pub struct CountTooLarge {
    pub count: usize,
    /// The largest count the encoding can carry.
    pub max: usize,
}

/// Write a `NumItems` count, or refuse one over the limit: a reader of the
/// narrow form takes the first byte at face value, so the wide form must not
/// be written into a file that predates it.
pub fn write_num_items(out: &mut Vec<u8>, count: usize, wide: bool) -> (r: Result<(), CountTooLarge>)
    ensures
        r is Ok <==> count < num_items_limit(wide),
        r is Ok ==> final(out)@ == old(out)@ + num_items_ser(count as nat, wide),
        r matches Err(e) ==> final(out)@ == old(out)@ && e.count == count && e.max + 1
            == num_items_limit(wide),
{
    let limit: usize = if wide {
        0x8000
    } else {
        0x100
    };
    if count < 128 || (!wide && count < limit) {
        out.push(count as u8);
        assert(out@ =~= old(out)@ + num_items_ser(count as nat, wide));
        Ok(())
    } else if count < limit {
        out.push((count / 256 + 128) as u8);
        out.push((count % 256) as u8);
        assert(out@ =~= old(out)@ + num_items_ser(count as nat, wide));
        Ok(())
    } else {
        Err(CountTooLarge { count, max: limit - 1 })
    }
}

// ---------------------------------------------------------------- strings

/// C# `BinaryWriter.Write(string)`: 7-bit encoded byte length, then UTF-8.
pub struct CsString(pub String);

impl CsString {
    pub fn as_str(&self) -> (s: &str)
        ensures
            s@ == self.0@,
    {
        self.0.as_str()
    }

    pub fn from_str(s: &str) -> (r: CsString)
        ensures
            r.0@ == s@,
    {
        CsString(s.to_owned())
    }
}

impl Clone for CsString {
    fn clone(&self) -> (r: Self)
        ensures
            r.0@ == self.0@,
    {
        CsString(self.0.clone())
    }
}

impl Wire for CsString {
    type Model = Seq<char>;

    open spec fn model(&self) -> Seq<char> {
        self.0@
    }

    open spec fn wire_encodable(m: Seq<char>) -> bool {
        encode_utf8(m).len() < 0x1_0000_0000
    }

    open spec fn wire_ser(m: Seq<char>) -> Seq<u8> {
        seven_bit_ser(encode_utf8(m).len()) + encode_utf8(m)
    }

    open spec fn wire_parse(b: Seq<u8>) -> Option<(Seq<char>, int)> {
        match seven_bit_parse(b) {
            Some((n, k)) => if b.len() - k < n {
                None
            } else {
                let bytes = b.skip(k).take(n as int);
                if valid_utf8(bytes) {
                    Some((decode_utf8(bytes), k + n))
                } else {
                    None
                }
            },
            None => None,
        }
    }

    proof fn lemma_roundtrip(m: Seq<char>, rest: Seq<u8>) {
        let bytes = encode_utf8(m);
        let head = seven_bit_ser(bytes.len());
        let b = head + bytes + rest;
        assert(Self::wire_ser(m) + rest =~= head + (bytes + rest));
        lemma_seven_bit_roundtrip(bytes.len(), bytes + rest);
        assert(b.skip(head.len() as int).take(bytes.len() as int) =~= bytes);
        vstd::utf8::encode_utf8_valid_utf8(m);
        vstd::utf8::encode_utf8_decode_utf8(m);
    }

    fn read(buf: &[u8], pos: usize) -> (r: Option<(CsString, usize)>) {
        match read_seven_bit(buf, pos) {
            Some((n, p)) => {
                if n > (buf.len() - p) as u64 {
                    return None;
                }
                assert(buf@.skip(pos as int).skip(p - pos) =~= buf@.skip(p as int));
                match take_bytes(buf, p, n as usize) {
                    Some(bytes) => match str_from_utf8(bytes) {
                        Some(s) => {
                            proof {
                                vstd::utf8::encode_utf8_decode_utf8(s@);
                            }
                            Some((CsString(s.to_owned()), p + n as usize))
                        },
                        None => None,
                    },
                    None => None,
                }
            },
            None => None,
        }
    }

    fn write(&self, out: &mut Vec<u8>) {
        let bytes = self.0.as_str().as_bytes();
        write_seven_bit(out, bytes.len() as u64);
        append_bytes(out, bytes);
        assert(out@ =~= old(out)@ + Self::wire_ser(self.model()));
    }
}

// ---------------------------------------------------------------- fixed records

/// A `bool` stored as one byte; any non-zero byte reads as true.
#[derive(Clone, Copy, PartialEq, Eq, Debug, Default)]
pub struct Bool(pub bool);

impl Wire for Bool {
    type Model = bool;

    open spec fn model(&self) -> bool {
        self.0
    }

    open spec fn wire_encodable(m: bool) -> bool {
        true
    }

    open spec fn wire_ser(m: bool) -> Seq<u8> {
        if m {
            seq![1u8]
        } else {
            seq![0u8]
        }
    }

    open spec fn wire_parse(b: Seq<u8>) -> Option<(bool, int)> {
        if b.len() >= 1 {
            Some((b[0] != 0, 1))
        } else {
            None
        }
    }

    proof fn lemma_roundtrip(m: bool, rest: Seq<u8>) {
    }

    fn read(buf: &[u8], pos: usize) -> (r: Option<(Bool, usize)>) {
        if pos < buf.len() {
            Some((Bool(buf[pos] != 0), pos + 1))
        } else {
            None
        }
    }

    fn write(&self, out: &mut Vec<u8>) {
        out.push(if self.0 {
            1u8
        } else {
            0u8
        });
        assert(out@ =~= old(out)@ + Self::wire_ser(self.model()));
    }
}

/// `i32` length followed by raw bytes (`ZPackage.ReadByteArray`).
pub struct ByteArray {
    pub data: Vec<u8>,
}

impl Clone for ByteArray {
    fn clone(&self) -> (r: Self)
        ensures
            r.data@ == self.data@,
    {
        ByteArray { data: self.data.clone() }
    }
}

impl Wire for ByteArray {
    type Model = Seq<u8>;

    open spec fn model(&self) -> Seq<u8> {
        self.data@
    }

    open spec fn wire_encodable(m: Seq<u8>) -> bool {
        m.len() <= i32::MAX
    }

    open spec fn wire_ser(m: Seq<u8>) -> Seq<u8> {
        <i32 as Wire>::wire_ser(m.len() as i32) + m
    }

    open spec fn wire_parse(b: Seq<u8>) -> Option<(Seq<u8>, int)> {
        match <i32 as Wire>::wire_parse(b) {
            Some((n, k)) => if n < 0 || b.len() - k < n {
                None
            } else {
                Some((b.skip(k).take(n as int), k + n))
            },
            None => None,
        }
    }

    proof fn lemma_roundtrip(m: Seq<u8>, rest: Seq<u8>) {
        let head = <i32 as Wire>::wire_ser(m.len() as i32);
        assert(Self::wire_ser(m) + rest =~= head + (m + rest));
        <i32 as Wire>::lemma_roundtrip(m.len() as i32, m + rest);
        assert((head + (m + rest)).skip(head.len() as int).take(m.len() as int) =~= m);
    }

    fn read(buf: &[u8], pos: usize) -> (r: Option<(ByteArray, usize)>) {
        match <i32 as Wire>::read(buf, pos) {
            Some((n, p)) => {
                if n < 0 {
                    return None;
                }
                assert(buf@.skip(pos as int).skip(p - pos) =~= buf@.skip(p as int));
                match take_bytes(buf, p, n as usize) {
                    Some(bytes) => {
                        let mut data: Vec<u8> = Vec::new();
                        append_bytes(&mut data, bytes);
                        Some((ByteArray { data }, p + n as usize))
                    },
                    None => None,
                }
            },
            None => None,
        }
    }

    fn write(&self, out: &mut Vec<u8>) {
        let n = self.data.len() as i32;
        n.write(out);
        append_bytes(out, self.data.as_slice());
        assert(out@ =~= old(out)@ + Self::wire_ser(self.model()));
    }
}

/// Two `i32`s.
#[derive(Clone, Copy, PartialEq, Eq, Debug, Default)]
pub struct Vec2i {
    pub x: i32,
    pub y: i32,
}

/// Two `i16`s: a zone, or a position with no height in whole metres.
#[derive(Clone, Copy, PartialEq, Eq, Debug, Default)]
pub struct Vec2s {
    pub x: i16,
    pub y: i16,
}

/// Three `f32`s, held as their bit patterns.
#[derive(Clone, Copy, PartialEq, Eq, Debug, Default)]
pub struct Vec3 {
    pub x: u32,
    pub y: u32,
    pub z: u32,
}

/// Four `f32`s, held as their bit patterns.
#[derive(Clone, Copy, PartialEq, Eq, Debug, Default)]
pub struct Quat {
    pub x: u32,
    pub y: u32,
    pub z: u32,
    pub w: u32,
}

impl Quat {
    /// Whether this is the identity rotation as `==` on `f32` sees it: every
    /// imaginary part is zero of either sign and the real part is one.
    pub open spec fn is_identity(self) -> bool {
        &&& self.x & 0x7FFF_FFFF == 0
        &&& self.y & 0x7FFF_FFFF == 0
        &&& self.z & 0x7FFF_FFFF == 0
        &&& self.w == 0x3F80_0000
    }

    pub fn identity_test(&self) -> (r: bool)
        ensures
            r == self.is_identity(),
    {
        self.x & 0x7FFF_FFFF == 0 && self.y & 0x7FFF_FFFF == 0 && self.z & 0x7FFF_FFFF == 0
            && self.w == 0x3F80_0000
    }
}

impl Wire for Vec2i {
    type Model = Vec2i;

    open spec fn model(&self) -> Vec2i {
        *self
    }

    open spec fn wire_encodable(m: Vec2i) -> bool {
        true
    }

    open spec fn wire_ser(m: Vec2i) -> Seq<u8> {
        <i32 as Wire>::wire_ser(m.x) + <i32 as Wire>::wire_ser(m.y)
    }

    open spec fn wire_parse(b: Seq<u8>) -> Option<(Vec2i, int)> {
        if b.len() >= 8 {
            Some(
                (
                    Vec2i {
                        x: <i32 as Wire>::wire_parse(b).unwrap().0,
                        y: <i32 as Wire>::wire_parse(b.skip(4)).unwrap().0,
                    },
                    8,
                ),
            )
        } else {
            None
        }
    }

    proof fn lemma_roundtrip(m: Vec2i, rest: Seq<u8>) {
        let a = <i32 as Wire>::wire_ser(m.x);
        let b = <i32 as Wire>::wire_ser(m.y);
        <i32 as Wire>::lemma_roundtrip(m.x, b + rest);
        <i32 as Wire>::lemma_roundtrip(m.y, rest);
        assert(a + b + rest =~= a + (b + rest));
        assert((a + b + rest).skip(4) =~= b + rest);
    }

    fn read(buf: &[u8], pos: usize) -> (r: Option<(Vec2i, usize)>) {
        if buf.len() - pos < 8 {
            return None;
        }
        let (x, p) = <i32 as Wire>::read(buf, pos).unwrap();
        let (y, q) = <i32 as Wire>::read(buf, p).unwrap();
        assert(buf@.skip(pos as int).skip(4) =~= buf@.skip(p as int));
        Some((Vec2i { x, y }, q))
    }

    fn write(&self, out: &mut Vec<u8>) {
        self.x.write(out);
        self.y.write(out);
        assert(out@ =~= old(out)@ + Self::wire_ser(self.model()));
    }
}

impl Wire for Vec2s {
    type Model = Vec2s;

    open spec fn model(&self) -> Vec2s {
        *self
    }

    open spec fn wire_encodable(m: Vec2s) -> bool {
        true
    }

    open spec fn wire_ser(m: Vec2s) -> Seq<u8> {
        <i16 as Wire>::wire_ser(m.x) + <i16 as Wire>::wire_ser(m.y)
    }

    open spec fn wire_parse(b: Seq<u8>) -> Option<(Vec2s, int)> {
        if b.len() >= 4 {
            Some(
                (
                    Vec2s {
                        x: <i16 as Wire>::wire_parse(b).unwrap().0,
                        y: <i16 as Wire>::wire_parse(b.skip(2)).unwrap().0,
                    },
                    4,
                ),
            )
        } else {
            None
        }
    }

    proof fn lemma_roundtrip(m: Vec2s, rest: Seq<u8>) {
        let a = <i16 as Wire>::wire_ser(m.x);
        let b = <i16 as Wire>::wire_ser(m.y);
        <i16 as Wire>::lemma_roundtrip(m.x, b + rest);
        <i16 as Wire>::lemma_roundtrip(m.y, rest);
        assert(a + b + rest =~= a + (b + rest));
        assert((a + b + rest).skip(2) =~= b + rest);
    }

    fn read(buf: &[u8], pos: usize) -> (r: Option<(Vec2s, usize)>) {
        if buf.len() - pos < 4 {
            return None;
        }
        let (x, p) = <i16 as Wire>::read(buf, pos).unwrap();
        let (y, q) = <i16 as Wire>::read(buf, p).unwrap();
        assert(buf@.skip(pos as int).skip(2) =~= buf@.skip(p as int));
        Some((Vec2s { x, y }, q))
    }

    fn write(&self, out: &mut Vec<u8>) {
        self.x.write(out);
        self.y.write(out);
        assert(out@ =~= old(out)@ + Self::wire_ser(self.model()));
    }
}

impl Wire for Vec3 {
    type Model = Vec3;

    open spec fn model(&self) -> Vec3 {
        *self
    }

    open spec fn wire_encodable(m: Vec3) -> bool {
        true
    }

    open spec fn wire_ser(m: Vec3) -> Seq<u8> {
        <u32 as Wire>::wire_ser(m.x) + <u32 as Wire>::wire_ser(m.y) + <u32 as Wire>::wire_ser(m.z)
    }

    open spec fn wire_parse(b: Seq<u8>) -> Option<(Vec3, int)> {
        if b.len() >= 12 {
            Some(
                (
                    Vec3 {
                        x: <u32 as Wire>::wire_parse(b).unwrap().0,
                        y: <u32 as Wire>::wire_parse(b.skip(4)).unwrap().0,
                        z: <u32 as Wire>::wire_parse(b.skip(8)).unwrap().0,
                    },
                    12,
                ),
            )
        } else {
            None
        }
    }

    proof fn lemma_roundtrip(m: Vec3, rest: Seq<u8>) {
        let a = <u32 as Wire>::wire_ser(m.x);
        let b = <u32 as Wire>::wire_ser(m.y);
        let c = <u32 as Wire>::wire_ser(m.z);
        <u32 as Wire>::lemma_roundtrip(m.x, b + c + rest);
        <u32 as Wire>::lemma_roundtrip(m.y, c + rest);
        <u32 as Wire>::lemma_roundtrip(m.z, rest);
        assert(a + b + c + rest =~= a + (b + c + rest));
        assert((a + b + c + rest).skip(4) =~= b + (c + rest));
        assert((a + b + c + rest).skip(8) =~= c + rest);
    }

    fn read(buf: &[u8], pos: usize) -> (r: Option<(Vec3, usize)>) {
        if buf.len() - pos < 12 {
            return None;
        }
        let (x, p) = <u32 as Wire>::read(buf, pos).unwrap();
        let (y, q) = <u32 as Wire>::read(buf, p).unwrap();
        let (z, t) = <u32 as Wire>::read(buf, q).unwrap();
        assert(buf@.skip(pos as int).skip(4) =~= buf@.skip(p as int));
        assert(buf@.skip(pos as int).skip(8) =~= buf@.skip(q as int));
        Some((Vec3 { x, y, z }, t))
    }

    fn write(&self, out: &mut Vec<u8>) {
        self.x.write(out);
        self.y.write(out);
        self.z.write(out);
        assert(out@ =~= old(out)@ + Self::wire_ser(self.model()));
    }
}

impl Wire for Quat {
    type Model = Quat;

    open spec fn model(&self) -> Quat {
        *self
    }

    open spec fn wire_encodable(m: Quat) -> bool {
        true
    }

    open spec fn wire_ser(m: Quat) -> Seq<u8> {
        <u32 as Wire>::wire_ser(m.x) + <u32 as Wire>::wire_ser(m.y) + <u32 as Wire>::wire_ser(m.z)
            + <u32 as Wire>::wire_ser(m.w)
    }

    open spec fn wire_parse(b: Seq<u8>) -> Option<(Quat, int)> {
        if b.len() >= 16 {
            Some(
                (
                    Quat {
                        x: <u32 as Wire>::wire_parse(b).unwrap().0,
                        y: <u32 as Wire>::wire_parse(b.skip(4)).unwrap().0,
                        z: <u32 as Wire>::wire_parse(b.skip(8)).unwrap().0,
                        w: <u32 as Wire>::wire_parse(b.skip(12)).unwrap().0,
                    },
                    16,
                ),
            )
        } else {
            None
        }
    }

    proof fn lemma_roundtrip(m: Quat, rest: Seq<u8>) {
        let a = <u32 as Wire>::wire_ser(m.x);
        let b = <u32 as Wire>::wire_ser(m.y);
        let c = <u32 as Wire>::wire_ser(m.z);
        let d = <u32 as Wire>::wire_ser(m.w);
        <u32 as Wire>::lemma_roundtrip(m.x, b + c + d + rest);
        <u32 as Wire>::lemma_roundtrip(m.y, c + d + rest);
        <u32 as Wire>::lemma_roundtrip(m.z, d + rest);
        <u32 as Wire>::lemma_roundtrip(m.w, rest);
        assert(a + b + c + d + rest =~= a + (b + c + d + rest));
        assert((a + b + c + d + rest).skip(4) =~= b + (c + d + rest));
        assert((a + b + c + d + rest).skip(8) =~= c + (d + rest));
        assert((a + b + c + d + rest).skip(12) =~= d + rest);
    }

    fn read(buf: &[u8], pos: usize) -> (r: Option<(Quat, usize)>) {
        if buf.len() - pos < 16 {
            return None;
        }
        let (x, p) = <u32 as Wire>::read(buf, pos).unwrap();
        let (y, q) = <u32 as Wire>::read(buf, p).unwrap();
        let (z, t) = <u32 as Wire>::read(buf, q).unwrap();
        let (w, u) = <u32 as Wire>::read(buf, t).unwrap();
        assert(buf@.skip(pos as int).skip(4) =~= buf@.skip(p as int));
        assert(buf@.skip(pos as int).skip(8) =~= buf@.skip(q as int));
        assert(buf@.skip(pos as int).skip(12) =~= buf@.skip(t as int));
        Some((Quat { x, y, z, w }, u))
    }

    fn write(&self, out: &mut Vec<u8>) {
        self.x.write(out);
        self.y.write(out);
        self.z.write(out);
        self.w.write(out);
        assert(out@ =~= old(out)@ + Self::wire_ser(self.model()));
    }
}

// ---------------------------------------------------------------- lists and maps

/// `i32` count followed by strings.
pub struct StringList {
    pub items: Vec<CsString>,
}

impl Wire for StringList {
    type Model = Seq<<CsString as Wire>::Model>;

    open spec fn model(&self) -> Self::Model {
        models(self.items@)
    }

    open spec fn wire_encodable(m: Self::Model) -> bool {
        counted_encodable::<CsString>(m)
    }

    open spec fn wire_ser(m: Self::Model) -> Seq<u8> {
        ser_counted::<CsString>(m)
    }

    open spec fn wire_parse(b: Seq<u8>) -> Option<(Self::Model, int)> {
        parse_counted::<CsString>(b)
    }

    proof fn lemma_roundtrip(m: Self::Model, rest: Seq<u8>) {
        lemma_counted_roundtrip::<CsString>(m, rest);
    }

    fn read(buf: &[u8], pos: usize) -> (r: Option<(StringList, usize)>) {
        match read_counted::<CsString>(buf, pos) {
            Some((items, p)) => Some((StringList { items }, p)),
            None => None,
        }
    }

    fn write(&self, out: &mut Vec<u8>) {
        write_counted(&self.items, out);
    }
}

/// `i32` count followed by `i32`s.
pub struct IntList {
    pub items: Vec<i32>,
}

impl Wire for IntList {
    type Model = Seq<<i32 as Wire>::Model>;

    open spec fn model(&self) -> Self::Model {
        models(self.items@)
    }

    open spec fn wire_encodable(m: Self::Model) -> bool {
        counted_encodable::<i32>(m)
    }

    open spec fn wire_ser(m: Self::Model) -> Seq<u8> {
        ser_counted::<i32>(m)
    }

    open spec fn wire_parse(b: Seq<u8>) -> Option<(Self::Model, int)> {
        parse_counted::<i32>(b)
    }

    proof fn lemma_roundtrip(m: Self::Model, rest: Seq<u8>) {
        lemma_counted_roundtrip::<i32>(m, rest);
    }

    fn read(buf: &[u8], pos: usize) -> (r: Option<(IntList, usize)>) {
        match read_counted::<i32>(buf, pos) {
            Some((items, p)) => Some((IntList { items }, p)),
            None => None,
        }
    }

    fn write(&self, out: &mut Vec<u8>) {
        write_counted(&self.items, out);
    }
}

/// One `(string, i32)` pair.
pub struct StringIntEntry {
    pub key: CsString,
    pub value: i32,
}

impl Wire for StringIntEntry {
    type Model = (<CsString as Wire>::Model, <i32 as Wire>::Model);

    open spec fn model(&self) -> Self::Model {
        (self.key.model(), self.value.model())
    }

    open spec fn wire_encodable(m: Self::Model) -> bool {
        <CsString as Wire>::wire_encodable(m.0) && <i32 as Wire>::wire_encodable(m.1)
    }

    open spec fn wire_ser(m: Self::Model) -> Seq<u8> {
        ser_pair::<CsString, i32>(m.0, m.1)
    }

    open spec fn wire_parse(b: Seq<u8>) -> Option<(Self::Model, int)> {
        parse_pair::<CsString, i32>(b)
    }

    proof fn lemma_roundtrip(m: Self::Model, rest: Seq<u8>) {
        lemma_pair_roundtrip::<CsString, i32>(m.0, m.1, rest);
    }

    fn read(buf: &[u8], pos: usize) -> (r: Option<(StringIntEntry, usize)>) {
        match read_pair::<CsString, i32>(buf, pos) {
            Some((key, value, p)) => Some((StringIntEntry { key, value }, p)),
            None => None,
        }
    }

    fn write(&self, out: &mut Vec<u8>) {
        self.key.write(out);
        self.value.write(out);
        assert(out@ =~= old(out)@ + Self::wire_ser(self.model()));
    }
}

/// `i32` count followed by `(string, i32)` pairs.
pub struct StringIntMap {
    pub items: Vec<StringIntEntry>,
}

impl Wire for StringIntMap {
    type Model = Seq<<StringIntEntry as Wire>::Model>;

    open spec fn model(&self) -> Self::Model {
        models(self.items@)
    }

    open spec fn wire_encodable(m: Self::Model) -> bool {
        counted_encodable::<StringIntEntry>(m)
    }

    open spec fn wire_ser(m: Self::Model) -> Seq<u8> {
        ser_counted::<StringIntEntry>(m)
    }

    open spec fn wire_parse(b: Seq<u8>) -> Option<(Self::Model, int)> {
        parse_counted::<StringIntEntry>(b)
    }

    proof fn lemma_roundtrip(m: Self::Model, rest: Seq<u8>) {
        lemma_counted_roundtrip::<StringIntEntry>(m, rest);
    }

    fn read(buf: &[u8], pos: usize) -> (r: Option<(StringIntMap, usize)>) {
        match read_counted::<StringIntEntry>(buf, pos) {
            Some((items, p)) => Some((StringIntMap { items }, p)),
            None => None,
        }
    }

    fn write(&self, out: &mut Vec<u8>) {
        write_counted(&self.items, out);
    }
}

/// One `(string, string)` pair.
pub struct StringStringEntry {
    pub key: CsString,
    pub value: CsString,
}

impl Wire for StringStringEntry {
    type Model = (<CsString as Wire>::Model, <CsString as Wire>::Model);

    open spec fn model(&self) -> Self::Model {
        (self.key.model(), self.value.model())
    }

    open spec fn wire_encodable(m: Self::Model) -> bool {
        <CsString as Wire>::wire_encodable(m.0) && <CsString as Wire>::wire_encodable(m.1)
    }

    open spec fn wire_ser(m: Self::Model) -> Seq<u8> {
        ser_pair::<CsString, CsString>(m.0, m.1)
    }

    open spec fn wire_parse(b: Seq<u8>) -> Option<(Self::Model, int)> {
        parse_pair::<CsString, CsString>(b)
    }

    proof fn lemma_roundtrip(m: Self::Model, rest: Seq<u8>) {
        lemma_pair_roundtrip::<CsString, CsString>(m.0, m.1, rest);
    }

    fn read(buf: &[u8], pos: usize) -> (r: Option<(StringStringEntry, usize)>) {
        match read_pair::<CsString, CsString>(buf, pos) {
            Some((key, value, p)) => Some((StringStringEntry { key, value }, p)),
            None => None,
        }
    }

    fn write(&self, out: &mut Vec<u8>) {
        self.key.write(out);
        self.value.write(out);
        assert(out@ =~= old(out)@ + Self::wire_ser(self.model()));
    }
}

/// `i32` count followed by `(string, string)` pairs.
pub struct StringStringMap {
    pub items: Vec<StringStringEntry>,
}

impl Wire for StringStringMap {
    type Model = Seq<<StringStringEntry as Wire>::Model>;

    open spec fn model(&self) -> Self::Model {
        models(self.items@)
    }

    open spec fn wire_encodable(m: Self::Model) -> bool {
        counted_encodable::<StringStringEntry>(m)
    }

    open spec fn wire_ser(m: Self::Model) -> Seq<u8> {
        ser_counted::<StringStringEntry>(m)
    }

    open spec fn wire_parse(b: Seq<u8>) -> Option<(Self::Model, int)> {
        parse_counted::<StringStringEntry>(b)
    }

    proof fn lemma_roundtrip(m: Self::Model, rest: Seq<u8>) {
        lemma_counted_roundtrip::<StringStringEntry>(m, rest);
    }

    fn read(buf: &[u8], pos: usize) -> (r: Option<(StringStringMap, usize)>) {
        match read_counted::<StringStringEntry>(buf, pos) {
            Some((items, p)) => Some((StringStringMap { items }, p)),
            None => None,
        }
    }

    fn write(&self, out: &mut Vec<u8>) {
        write_counted(&self.items, out);
    }
}

/// One `(string, f32)` pair, the float as its bits.
pub struct StringFloatEntry {
    pub key: CsString,
    pub value: u32,
}

impl Wire for StringFloatEntry {
    type Model = (<CsString as Wire>::Model, <u32 as Wire>::Model);

    open spec fn model(&self) -> Self::Model {
        (self.key.model(), self.value.model())
    }

    open spec fn wire_encodable(m: Self::Model) -> bool {
        <CsString as Wire>::wire_encodable(m.0) && <u32 as Wire>::wire_encodable(m.1)
    }

    open spec fn wire_ser(m: Self::Model) -> Seq<u8> {
        ser_pair::<CsString, u32>(m.0, m.1)
    }

    open spec fn wire_parse(b: Seq<u8>) -> Option<(Self::Model, int)> {
        parse_pair::<CsString, u32>(b)
    }

    proof fn lemma_roundtrip(m: Self::Model, rest: Seq<u8>) {
        lemma_pair_roundtrip::<CsString, u32>(m.0, m.1, rest);
    }

    fn read(buf: &[u8], pos: usize) -> (r: Option<(StringFloatEntry, usize)>) {
        match read_pair::<CsString, u32>(buf, pos) {
            Some((key, value, p)) => Some((StringFloatEntry { key, value }, p)),
            None => None,
        }
    }

    fn write(&self, out: &mut Vec<u8>) {
        self.key.write(out);
        self.value.write(out);
        assert(out@ =~= old(out)@ + Self::wire_ser(self.model()));
    }
}

/// `i32` count followed by `(string, f32)` pairs.
pub struct StringFloatMap {
    pub items: Vec<StringFloatEntry>,
}

impl Wire for StringFloatMap {
    type Model = Seq<<StringFloatEntry as Wire>::Model>;

    open spec fn model(&self) -> Self::Model {
        models(self.items@)
    }

    open spec fn wire_encodable(m: Self::Model) -> bool {
        counted_encodable::<StringFloatEntry>(m)
    }

    open spec fn wire_ser(m: Self::Model) -> Seq<u8> {
        ser_counted::<StringFloatEntry>(m)
    }

    open spec fn wire_parse(b: Seq<u8>) -> Option<(Self::Model, int)> {
        parse_counted::<StringFloatEntry>(b)
    }

    proof fn lemma_roundtrip(m: Self::Model, rest: Seq<u8>) {
        lemma_counted_roundtrip::<StringFloatEntry>(m, rest);
    }

    fn read(buf: &[u8], pos: usize) -> (r: Option<(StringFloatMap, usize)>) {
        match read_counted::<StringFloatEntry>(buf, pos) {
            Some((items, p)) => Some((StringFloatMap { items }, p)),
            None => None,
        }
    }

    fn write(&self, out: &mut Vec<u8>) {
        write_counted(&self.items, out);
    }
}

} // verus!
