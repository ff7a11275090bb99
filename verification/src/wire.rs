//! The little-endian binary encoding the game's `BinaryWriter` and `ZPackage`
//! produce, as a parser and a serializer per type with their round-trip laws.
//!
//! Every encodable type implements [`Wire`]: `wire_parse` reads a value off the
//! front of a byte sequence and says how many bytes it took, `wire_ser` writes
//! one, and the round-trip law says reading gives back what was written.

use vstd::bytes::*;
use vstd::prelude::*;

verus! {

/// A type with a byte encoding.
pub trait Wire: Sized {
    /// The plain value a `Self` stands for.
    type Model;

    spec fn model(&self) -> Self::Model;

    /// Whether the encoding can carry `m` (a length that fits its prefix, ...).
    spec fn wire_encodable(m: Self::Model) -> bool;

    /// The bytes `m` is written as.
    spec fn wire_ser(m: Self::Model) -> Seq<u8>;

    /// The value at the front of `b` and how many bytes it takes, or `None`
    /// when `b` does not start with one.
    spec fn wire_parse(b: Seq<u8>) -> Option<(Self::Model, int)>;

    /// Writing then reading gives the value back, whatever follows it.
    proof fn lemma_roundtrip(m: Self::Model, rest: Seq<u8>)
        requires
            Self::wire_encodable(m),
        ensures
            Self::wire_parse(Self::wire_ser(m) + rest) == Some((m, Self::wire_ser(m).len() as int)),
    ;

    fn read(buf: &[u8], pos: usize) -> (r: Option<(Self, usize)>)
        requires
            pos <= buf@.len(),
        ensures
            match r {
                Some((x, p)) => pos <= p <= buf@.len() && Self::wire_parse(buf@.skip(pos as int))
                    == Some((x.model(), p - pos)),
                None => Self::wire_parse(buf@.skip(pos as int)) is None,
            },
    ;

    fn write(&self, out: &mut Vec<u8>)
        requires
            Self::wire_encodable(self.model()),
        ensures
            final(out)@ == old(out)@ + Self::wire_ser(self.model()),
    ;
}

/// Append `bytes` to `out`.
pub fn append_bytes(out: &mut Vec<u8>, bytes: &[u8])
    ensures
        final(out)@ == old(out)@ + bytes@,
{
    let mut i: usize = 0;
    while i < bytes.len()
        invariant
            i <= bytes@.len(),
            out@ == old(out)@ + bytes@.take(i as int),
        decreases bytes@.len() - i,
    {
        out.push(bytes[i]);
        i = i + 1;
        assert(out@ =~= old(out)@ + bytes@.take(i as int));
    }
    assert(bytes@.take(bytes@.len() as int) =~= bytes@);
}

/// `n` bytes starting at `pos`, when there are that many.
pub fn take_bytes(buf: &[u8], pos: usize, n: usize) -> (r: Option<&[u8]>)
    requires
        pos <= buf@.len(),
    ensures
        match r {
            Some(s) => pos + n <= buf.len() && s@ == buf@.skip(pos as int).take(n as int),
            None => n > buf@.len() - pos,
        },
{
    if n > buf.len() - pos {
        None
    } else {
        let s = &buf[pos..pos + n];
        assert(s@ =~= buf@.skip(pos as int).take(n as int));
        Some(s)
    }
}

/// The `u32` with the same bits as `x`.
pub open spec fn u32_bits(x: i32) -> u32 {
    if x >= 0 {
        x as u32
    } else {
        (x + 0x1_0000_0000) as u32
    }
}

/// The `i32` with the same bits as `x`.
pub open spec fn i32_of_bits(x: u32) -> i32 {
    if x < 0x8000_0000 {
        x as i32
    } else {
        (x - 0x1_0000_0000) as i32
    }
}

/// The `u16` with the same bits as `x`.
pub open spec fn u16_bits(x: i16) -> u16 {
    if x >= 0 {
        x as u16
    } else {
        (x + 0x1_0000) as u16
    }
}

/// The `i16` with the same bits as `x`.
pub open spec fn i16_of_bits(x: u16) -> i16 {
    if x < 0x8000 {
        x as i16
    } else {
        (x - 0x1_0000) as i16
    }
}

/// The `u64` with the same bits as `x`.
pub open spec fn u64_bits(x: i64) -> u64 {
    if x >= 0 {
        x as u64
    } else {
        (x + 0x1_0000_0000_0000_0000) as u64
    }
}

/// The `i64` with the same bits as `x`.
pub open spec fn i64_of_bits(x: u64) -> i64 {
    if x < 0x8000_0000_0000_0000 {
        x as i64
    } else {
        (x - 0x1_0000_0000_0000_0000) as i64
    }
}

fn to_u32_bits(x: i32) -> (r: u32)
    ensures
        r == u32_bits(x),
{
    if x >= 0 {
        x as u32
    } else {
        ((x - i32::MIN) as u32) + 0x8000_0000
    }
}

fn of_u32_bits(x: u32) -> (r: i32)
    ensures
        r == i32_of_bits(x),
{
    if x < 0x8000_0000 {
        x as i32
    } else {
        ((x - 0x8000_0000) as i32) + i32::MIN
    }
}

fn to_u16_bits(x: i16) -> (r: u16)
    ensures
        r == u16_bits(x),
{
    if x >= 0 {
        x as u16
    } else {
        ((x - i16::MIN) as u16) + 0x8000
    }
}

fn of_u16_bits(x: u16) -> (r: i16)
    ensures
        r == i16_of_bits(x),
{
    if x < 0x8000 {
        x as i16
    } else {
        ((x - 0x8000) as i16) + i16::MIN
    }
}

fn to_u64_bits(x: i64) -> (r: u64)
    ensures
        r == u64_bits(x),
{
    if x >= 0 {
        x as u64
    } else {
        ((x - i64::MIN) as u64) + 0x8000_0000_0000_0000
    }
}

fn of_u64_bits(x: u64) -> (r: i64)
    ensures
        r == i64_of_bits(x),
{
    if x < 0x8000_0000_0000_0000 {
        x as i64
    } else {
        ((x - 0x8000_0000_0000_0000) as i64) + i64::MIN
    }
}

impl Wire for u8 {
    type Model = u8;

    open spec fn model(&self) -> u8 {
        *self
    }

    open spec fn wire_encodable(m: u8) -> bool {
        true
    }

    open spec fn wire_ser(m: u8) -> Seq<u8> {
        seq![m]
    }

    open spec fn wire_parse(b: Seq<u8>) -> Option<(u8, int)> {
        if b.len() >= 1 {
            Some((b[0], 1))
        } else {
            None
        }
    }

    proof fn lemma_roundtrip(m: u8, rest: Seq<u8>) {
    }


    fn read(buf: &[u8], pos: usize) -> (r: Option<(u8, usize)>) {
        if pos < buf.len() {
            Some((buf[pos], pos + 1))
        } else {
            None
        }
    }

    fn write(&self, out: &mut Vec<u8>) {
        out.push(*self);
    }
}

impl Wire for u16 {
    type Model = u16;

    open spec fn model(&self) -> u16 {
        *self
    }

    open spec fn wire_encodable(m: u16) -> bool {
        true
    }

    open spec fn wire_ser(m: u16) -> Seq<u8> {
        spec_u16_to_le_bytes(m)
    }

    open spec fn wire_parse(b: Seq<u8>) -> Option<(u16, int)> {
        if b.len() >= 2 {
            Some((spec_u16_from_le_bytes(b.take(2)), 2))
        } else {
            None
        }
    }

    proof fn lemma_roundtrip(m: u16, rest: Seq<u8>) {
        lemma_auto_spec_u16_to_from_le_bytes();
        assert((spec_u16_to_le_bytes(m) + rest).take(2) =~= spec_u16_to_le_bytes(m));
    }


    fn read(buf: &[u8], pos: usize) -> (r: Option<(u16, usize)>) {
        match take_bytes(buf, pos, 2) {
            Some(s) => Some((u16_from_le_bytes(s), pos + 2)),
            None => None,
        }
    }

    fn write(&self, out: &mut Vec<u8>) {
        let bs = u16_to_le_bytes(*self);
        append_bytes(out, bs.as_slice());
    }
}

impl Wire for u32 {
    type Model = u32;

    open spec fn model(&self) -> u32 {
        *self
    }

    open spec fn wire_encodable(m: u32) -> bool {
        true
    }

    open spec fn wire_ser(m: u32) -> Seq<u8> {
        spec_u32_to_le_bytes(m)
    }

    open spec fn wire_parse(b: Seq<u8>) -> Option<(u32, int)> {
        if b.len() >= 4 {
            Some((spec_u32_from_le_bytes(b.take(4)), 4))
        } else {
            None
        }
    }

    proof fn lemma_roundtrip(m: u32, rest: Seq<u8>) {
        lemma_auto_spec_u32_to_from_le_bytes();
        assert((spec_u32_to_le_bytes(m) + rest).take(4) =~= spec_u32_to_le_bytes(m));
    }


    fn read(buf: &[u8], pos: usize) -> (r: Option<(u32, usize)>) {
        match take_bytes(buf, pos, 4) {
            Some(s) => Some((u32_from_le_bytes(s), pos + 4)),
            None => None,
        }
    }

    fn write(&self, out: &mut Vec<u8>) {
        let bs = u32_to_le_bytes(*self);
        append_bytes(out, bs.as_slice());
    }
}

impl Wire for u64 {
    type Model = u64;

    open spec fn model(&self) -> u64 {
        *self
    }

    open spec fn wire_encodable(m: u64) -> bool {
        true
    }

    open spec fn wire_ser(m: u64) -> Seq<u8> {
        spec_u64_to_le_bytes(m)
    }

    open spec fn wire_parse(b: Seq<u8>) -> Option<(u64, int)> {
        if b.len() >= 8 {
            Some((spec_u64_from_le_bytes(b.take(8)), 8))
        } else {
            None
        }
    }

    proof fn lemma_roundtrip(m: u64, rest: Seq<u8>) {
        lemma_auto_spec_u64_to_from_le_bytes();
        assert((spec_u64_to_le_bytes(m) + rest).take(8) =~= spec_u64_to_le_bytes(m));
    }


    fn read(buf: &[u8], pos: usize) -> (r: Option<(u64, usize)>) {
        match take_bytes(buf, pos, 8) {
            Some(s) => Some((u64_from_le_bytes(s), pos + 8)),
            None => None,
        }
    }

    fn write(&self, out: &mut Vec<u8>) {
        let bs = u64_to_le_bytes(*self);
        append_bytes(out, bs.as_slice());
    }
}

impl Wire for i16 {
    type Model = i16;

    open spec fn model(&self) -> i16 {
        *self
    }

    open spec fn wire_encodable(m: i16) -> bool {
        true
    }

    open spec fn wire_ser(m: i16) -> Seq<u8> {
        spec_u16_to_le_bytes(u16_bits(m))
    }

    open spec fn wire_parse(b: Seq<u8>) -> Option<(i16, int)> {
        if b.len() >= 2 {
            Some((i16_of_bits(spec_u16_from_le_bytes(b.take(2))), 2))
        } else {
            None
        }
    }

    proof fn lemma_roundtrip(m: i16, rest: Seq<u8>) {
        <u16 as Wire>::lemma_roundtrip(u16_bits(m), rest);
    }


    fn read(buf: &[u8], pos: usize) -> (r: Option<(i16, usize)>) {
        match <u16 as Wire>::read(buf, pos) {
            Some((x, p)) => Some((of_u16_bits(x), p)),
            None => None,
        }
    }

    fn write(&self, out: &mut Vec<u8>) {
        to_u16_bits(*self).write(out);
    }
}

impl Wire for i32 {
    type Model = i32;

    open spec fn model(&self) -> i32 {
        *self
    }

    open spec fn wire_encodable(m: i32) -> bool {
        true
    }

    open spec fn wire_ser(m: i32) -> Seq<u8> {
        spec_u32_to_le_bytes(u32_bits(m))
    }

    open spec fn wire_parse(b: Seq<u8>) -> Option<(i32, int)> {
        if b.len() >= 4 {
            Some((i32_of_bits(spec_u32_from_le_bytes(b.take(4))), 4))
        } else {
            None
        }
    }

    proof fn lemma_roundtrip(m: i32, rest: Seq<u8>) {
        <u32 as Wire>::lemma_roundtrip(u32_bits(m), rest);
    }


    fn read(buf: &[u8], pos: usize) -> (r: Option<(i32, usize)>) {
        match <u32 as Wire>::read(buf, pos) {
            Some((x, p)) => Some((of_u32_bits(x), p)),
            None => None,
        }
    }

    fn write(&self, out: &mut Vec<u8>) {
        to_u32_bits(*self).write(out);
    }
}

impl Wire for i64 {
    type Model = i64;

    open spec fn model(&self) -> i64 {
        *self
    }

    open spec fn wire_encodable(m: i64) -> bool {
        true
    }

    open spec fn wire_ser(m: i64) -> Seq<u8> {
        spec_u64_to_le_bytes(u64_bits(m))
    }

    open spec fn wire_parse(b: Seq<u8>) -> Option<(i64, int)> {
        if b.len() >= 8 {
            Some((i64_of_bits(spec_u64_from_le_bytes(b.take(8))), 8))
        } else {
            None
        }
    }

    proof fn lemma_roundtrip(m: i64, rest: Seq<u8>) {
        <u64 as Wire>::lemma_roundtrip(u64_bits(m), rest);
    }


    fn read(buf: &[u8], pos: usize) -> (r: Option<(i64, usize)>) {
        match <u64 as Wire>::read(buf, pos) {
            Some((x, p)) => Some((of_u64_bits(x), p)),
            None => None,
        }
    }

    fn write(&self, out: &mut Vec<u8>) {
        to_u64_bits(*self).write(out);
    }
}

/// Why a value could not be written.
#[derive(Clone, Copy, PartialEq, Eq, Debug)]
pub enum WriteError {
    /// A table has more entries than its count encoding can carry.
    CountTooLarge { count: usize, max: usize },
    /// The value holds a form the target version's layout has no room for:
    /// the compact record's packed rotation in an older file, a missing
    /// sector where one is required, an item record of the other generation.
    FormNotInVersion,
}

impl WriteError {
    /// A sentence describing the error.
    pub fn message(&self) -> (s: String)
        ensures
            match *self {
                WriteError::CountTooLarge { count, max } => s@ == "property table with "@
                    + crate::text::decimal(count as nat) + " entries exceeds the "@
                    + crate::text::decimal(max as nat) + " limit of this world version"@,
                WriteError::FormNotInVersion => s@
                    == "the value has no encoding in this version of the format"@,
            },
    {
        proof {
            reveal_strlit("property table with ");
            reveal_strlit(" entries exceeds the ");
            reveal_strlit(" limit of this world version");
            reveal_strlit("the value has no encoding in this version of the format");
        }
        match *self {
            WriteError::CountTooLarge { count, max } => {
                let mut s = String::from_str("property table with ");
                crate::text::push_decimal(&mut s, count as u64);
                s.append(" entries exceeds the ");
                crate::text::push_decimal(&mut s, max as u64);
                s.append(" limit of this world version");
                s
            },
            WriteError::FormNotInVersion => String::from_str(
                "the value has no encoding in this version of the format",
            ),
        }
    }
}

} // verus!
