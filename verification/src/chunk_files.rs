//! The small files of a chunked world: the `.chunks` map, each `.chunk`
//! file's objects, and the `.ok` marker; and runs of objects as both layouts
//! store them.

use vstd::prelude::*;
use crate::chunked::{ChunkIndex, ChunkInfo};
use crate::inventory::string_fits;
use crate::seqcodec::{
    counted_encodable, lemma_counted_roundtrip, models, parse_counted, read_counted, ser_counted,
    write_counted,
};
use crate::wire::{Wire, WriteError};
use crate::zdo::{
    compact_record, lemma_zdo_roundtrip, parse_zdo, ser_zdo, zdo_encodable, zdo_values_encodable, Zdo,
    ZdoModel,
};

verus! {

/// Why a file could not be read or written.
#[derive(Debug)]
pub enum FileError {
    /// The bytes do not hold what the file should.
    Malformed,
    /// The content was read but bytes are left after it.
    TrailingBytes { count: usize },
    /// A list is longer than its count can say.
    TooManyEntries { count: usize },
    /// A string or byte array is too long for its length prefix.
    ValueTooLarge,
    /// An object could not be written at the file's version.
    Object(WriteError),
    /// The file's version is older than any this layout reads.
    VersionTooOld { version: i32, oldest: i32 },
    /// The compressor failed.
    Compression,
    /// A length prefix says more bytes than the file has, or a negative
    /// number of them.
    LengthOutOfRange { len: i32, size: usize },
}

// ---------------------------------------------------------------- runs of objects

/// `n` objects of world `version` off the front of `b`.
pub open spec fn parse_zdo_run(b: Seq<u8>, n: nat, version: i32) -> Option<(Seq<ZdoModel>, int)>
    decreases n,
{
    if n == 0 {
        Some((seq![], 0))
    } else {
        match parse_zdo_run(b, (n - 1) as nat, version) {
            None => None,
            Some((ms, k)) => match parse_zdo(b.skip(k), version) {
                None => None,
                Some((m, j)) => Some((ms.push(m), k + j)),
            },
        }
    }
}

/// The bytes of objects written one after another at world `version`.
pub open spec fn ser_zdo_run(ms: Seq<ZdoModel>, version: i32) -> Seq<u8>
    decreases ms.len(),
{
    if ms.len() == 0 {
        seq![]
    } else {
        ser_zdo_run(ms.drop_last(), version) + ser_zdo(ms.last(), version)
    }
}

/// The models of a run of objects.
pub open spec fn zdo_models(zs: Seq<Zdo>) -> Seq<ZdoModel> {
    Seq::new(zs.len(), |i: int| zs[i].model())
}

proof fn lemma_run_none(b: Seq<u8>, m: nat, n: nat, version: i32)
    requires
        parse_zdo_run(b, m, version) is None,
        m <= n,
    ensures
        parse_zdo_run(b, n, version) is None,
    decreases n - m,
{
    if m < n {
        lemma_run_none(b, m + 1, n, version);
    }
}

/// Read `n` objects of world `version` at `pos`.
pub fn read_zdo_run(buf: &[u8], pos: usize, n: usize, version: i32) -> (r: Option<(Vec<Zdo>, usize)>)
    requires
        pos <= buf@.len(),
    ensures
        match r {
            Some((v, p)) => pos <= p <= buf@.len() && parse_zdo_run(buf@.skip(pos as int), n as nat, version)
                == Some((zdo_models(v@), p - pos)),
            None => parse_zdo_run(buf@.skip(pos as int), n as nat, version) is None,
        },
{
    let ghost b = buf@.skip(pos as int);
    let mut zs: Vec<Zdo> = Vec::new();
    let mut p = pos;
    let mut i: usize = 0;
    assert(zdo_models(zs@) =~= seq![]);
    while i < n
        invariant
            i <= n,
            pos <= p <= buf@.len(),
            b == buf@.skip(pos as int),
            parse_zdo_run(b, i as nat, version) == Some((zdo_models(zs@), p - pos)),
        decreases n - i,
    {
        assert(b.skip(p - pos) =~= buf@.skip(p as int));
        let ghost olds = zs@;
        match Zdo::read(buf, p, version) {
            Some((z, q)) => {
                let ghost zm = z.model();
                zs.push(z);
                p = q;
                i = i + 1;
                assert(zdo_models(zs@) =~= zdo_models(olds).push(zm));
            },
            None => {
                proof {
                    lemma_run_none(b, (i + 1) as nat, n as nat, version);
                }
                return None;
            },
        }
    }
    Some((zs, p))
}

/// Whether every property value of `z` fits its length prefix.
pub fn zdo_values_fit(z: &Zdo) -> (r: bool)
    ensures
        r == zdo_values_encodable(z.model()),
{
    let mut i: usize = 0;
    while i < z.strings.entries.len()
        invariant
            i <= z.strings.entries@.len(),
            forall|j: int|
                0 <= j < i ==> #[trigger] <(i32, crate::primitives::CsString) as Wire>::wire_encodable(
                    z.model().strings[j],
                ),
        decreases z.strings.entries@.len() - i,
    {
        assert(z.model().strings[i as int] == z.strings.entries@[i as int].model());
        if !string_fits(&z.strings.entries[i].1) {
            return false;
        }
        i = i + 1;
    }
    let mut i: usize = 0;
    while i < z.byte_arrays.entries.len()
        invariant
            i <= z.byte_arrays.entries@.len(),
            forall|j: int|
                0 <= j < i ==> #[trigger] <(i32, crate::primitives::ByteArray) as Wire>::wire_encodable(
                    z.model().byte_arrays[j],
                ),
        decreases z.byte_arrays.entries@.len() - i,
    {
        assert(z.model().byte_arrays[i as int] == z.byte_arrays.entries@[i as int].model());
        if z.byte_arrays.entries[i].1.data.len() > 0x7FFF_FFFF {
            return false;
        }
        i = i + 1;
    }
    true
}

/// Whether every object of `ms` can be written at world `version`.
pub open spec fn run_writable(ms: Seq<ZdoModel>, version: i32) -> bool {
    &&& forall|i: int| 0 <= i < ms.len() ==> zdo_values_encodable(#[trigger] ms[i])
    &&& forall|i: int| 0 <= i < ms.len() ==> zdo_encodable(#[trigger] ms[i], version)
}

/// Write `zs` one after another at world `version`; on an error nothing
/// more is written and the first failing object's error comes back.
pub fn write_zdo_run(zs: &Vec<Zdo>, out: &mut Vec<u8>, version: i32) -> (r: Result<(), FileError>)
    ensures
        r is Ok <==> run_writable(zdo_models(zs@), version),
        r is Ok ==> final(out)@ == old(out)@ + ser_zdo_run(zdo_models(zs@), version),
        r matches Err(e) ==> (e is ValueTooLarge || e is Object),
{
    let ghost ms = zdo_models(zs@);
    let mut i: usize = 0;
    while i < zs.len()
        invariant
            i <= zs@.len(),
            ms == zdo_models(zs@),
            forall|j: int| 0 <= j < i ==> zdo_values_encodable(#[trigger] ms[j]),
        decreases zs@.len() - i,
    {
        assert(ms[i as int] == zs@[i as int].model());
        if !zdo_values_fit(&zs[i]) {
            assert(!zdo_values_encodable(ms[i as int]));
            return Err(FileError::ValueTooLarge);
        }
        i = i + 1;
    }
    let ghost o0 = out@;
    let mut i: usize = 0;
    while i < zs.len()
        invariant
            i <= zs@.len(),
            ms == zdo_models(zs@),
            forall|j: int| 0 <= j < zs@.len() ==> zdo_values_encodable(#[trigger] ms[j]),
            forall|j: int| 0 <= j < i ==> zdo_encodable(#[trigger] ms[j], version),
            out@ == o0 + ser_zdo_run(ms.take(i as int), version),
        decreases zs@.len() - i,
    {
        assert(ms[i as int] == zs@[i as int].model());
        match zs[i].write(out, version) {
            Ok(()) => {},
            Err(e) => {
                assert(!zdo_encodable(ms[i as int], version));
                return Err(FileError::Object(e));
            },
        }
        proof {
            assert(ms.take(i + 1).drop_last() =~= ms.take(i as int));
        }
        i = i + 1;
        assert(out@ =~= o0 + ser_zdo_run(ms.take(i as int), version));
    }
    assert(ms.take(i as int) =~= ms);
    Ok(())
}

/// Objects written one after another read back as themselves.
pub proof fn lemma_zdo_run_roundtrip(ms: Seq<ZdoModel>, version: i32, rest: Seq<u8>)
    requires
        forall|i: int| 0 <= i < ms.len() ==> zdo_encodable(#[trigger] ms[i], version),
        forall|i: int| 0 <= i < ms.len() ==> (#[trigger] ms[i]).object_type < 4,
        compact_record(version) ==> forall|i: int| 0 <= i < ms.len() ==> (#[trigger] ms[i]).sector is None,
    ensures
        parse_zdo_run(ser_zdo_run(ms, version) + rest, ms.len(), version) == Some(
            (ms, ser_zdo_run(ms, version).len() as int),
        ),
    decreases ms.len(),
{
    if ms.len() > 0 {
        let init = ms.drop_last();
        let last = ms.last();
        let head = ser_zdo_run(init, version);
        let tail = ser_zdo(last, version);
        assert forall|i: int| 0 <= i < init.len() implies zdo_encodable(#[trigger] init[i], version) by {
            assert(init[i] == ms[i]);
        }
        assert forall|i: int| 0 <= i < init.len() implies (#[trigger] init[i]).object_type < 4 by {
            assert(init[i] == ms[i]);
        }
        assert(compact_record(version) ==> forall|i: int| 0 <= i < init.len() ==> (#[trigger] init[i]).sector is None) by {
            if compact_record(version) {
                assert forall|i: int| 0 <= i < init.len() implies (#[trigger] init[i]).sector is None by {
                    assert(init[i] == ms[i]);
                }
            }
        }
        lemma_zdo_run_roundtrip(init, version, tail + rest);
        assert(ser_zdo_run(ms, version) + rest =~= head + (tail + rest));
        assert((head + (tail + rest)).skip(head.len() as int) =~= tail + rest);
        lemma_zdo_roundtrip(last, version, rest);
        assert(init.push(last) =~= ms);
    }
}


// ---------------------------------------------------------------- the chunk map

/// A chunk-map entry's fields in file order.
pub type InfoFields = (u16, (u8, (u32, i32)));

impl Wire for ChunkInfo {
    type Model = ChunkInfo;

    open spec fn model(&self) -> ChunkInfo {
        *self
    }

    open spec fn wire_encodable(m: ChunkInfo) -> bool {
        true
    }

    open spec fn wire_ser(m: ChunkInfo) -> Seq<u8> {
        <InfoFields as Wire>::wire_ser((m.index.chunk, (m.index.size, (m.version, m.num_zdos))))
    }

    open spec fn wire_parse(b: Seq<u8>) -> Option<(ChunkInfo, int)> {
        match <InfoFields as Wire>::wire_parse(b) {
            Some((t, k)) => Some(
                (
                    ChunkInfo {
                        index: ChunkIndex { chunk: t.0, size: t.1.0 },
                        version: t.1.1.0,
                        num_zdos: t.1.1.1,
                    },
                    k,
                ),
            ),
            None => None,
        }
    }

    proof fn lemma_roundtrip(m: ChunkInfo, rest: Seq<u8>) {
        <InfoFields as Wire>::lemma_roundtrip((m.index.chunk, (m.index.size, (m.version, m.num_zdos))), rest);
    }

    fn read(buf: &[u8], pos: usize) -> (r: Option<(ChunkInfo, usize)>) {
        match <InfoFields as Wire>::read(buf, pos) {
            Some(((chunk, (size, (version, num_zdos))), p)) => Some(
                (ChunkInfo { index: ChunkIndex { chunk, size }, version, num_zdos }, p),
            ),
            None => None,
        }
    }

    fn write(&self, out: &mut Vec<u8>) {
        let t: InfoFields = (self.index.chunk, (self.index.size, (self.version, self.num_zdos)));
        t.write(out);
    }
}

/// `_main.N.chunks` (`ChunkSaveMapping.Save` / `.Load`): which chunk files
/// make up the world, in the order the game loads them.
pub struct ChunkMap {
    pub version: u16,
    /// Objects across every chunk; the game reads it to size its lists.
    pub total_zdos: i32,
    pub chunks: Vec<ChunkInfo>,
}

/// A chunk map as plain values.
pub struct ChunkMapModel {
    pub version: u16,
    pub total_zdos: i32,
    pub chunks: Seq<ChunkInfo>,
}

impl ChunkMap {
    pub open spec fn model(&self) -> ChunkMapModel {
        ChunkMapModel { version: self.version, total_zdos: self.total_zdos, chunks: self.chunks@ }
    }
}

/// The bytes of a chunk map.
pub open spec fn ser_chunk_map(m: ChunkMapModel) -> Seq<u8> {
    <u16 as Wire>::wire_ser(m.version) + <i32 as Wire>::wire_ser(m.total_zdos) + ser_counted::<ChunkInfo>(
        m.chunks,
    )
}

/// A chunk map off the front of `b`.
pub open spec fn parse_chunk_map(b: Seq<u8>) -> Option<(ChunkMapModel, int)> {
    match <u16 as Wire>::wire_parse(b) {
        None => None,
        Some((v, k1)) => match <i32 as Wire>::wire_parse(b.skip(k1)) {
            None => None,
            Some((t, k2)) => match parse_counted::<ChunkInfo>(b.skip(k1 + k2)) {
                None => None,
                Some((cs, k3)) => Some((ChunkMapModel { version: v, total_zdos: t, chunks: cs }, k1 + k2 + k3)),
            },
        },
    }
}

/// What reading all of `b` as one file gives, as `parsed` says it starts:
/// the content when it fills `b`, else the error.
pub open spec fn whole_file<M>(parsed: Option<(M, int)>, len: nat, r: Result<M, FileError>) -> bool {
    match parsed {
        None => r matches Err(FileError::Malformed),
        Some((m, k)) => if k == len {
            r == Ok::<M, FileError>(m)
        } else {
            r matches Err(FileError::TrailingBytes { count }) && count == len - k
        },
    }
}

impl ChunkMap {
    /// Read a whole `.chunks` file.
    pub fn parse(bytes: &[u8]) -> (r: Result<ChunkMap, FileError>)
        ensures
            whole_file(
                parse_chunk_map(bytes@),
                bytes@.len(),
                match r {
                    Ok(m) => Ok(m.model()),
                    Err(e) => Err(e),
                },
            ),
    {
        let (version, p1) = match <u16 as Wire>::read(bytes, 0) {
            Some(x) => x,
            None => {
                return Err(FileError::Malformed);
            },
        };
        assert(bytes@.skip(0) =~= bytes@);
        let (total_zdos, p2) = match <i32 as Wire>::read(bytes, p1) {
            Some(x) => x,
            None => {
                return Err(FileError::Malformed);
            },
        };
        assert(bytes@.skip(p2 as int) =~= bytes@.skip(p1 as int).skip(p2 - p1));
        let (chunks, p3) = match read_counted::<ChunkInfo>(bytes, p2) {
            Some(x) => x,
            None => {
                return Err(FileError::Malformed);
            },
        };
        assert(models(chunks@) =~= chunks@);
        if p3 != bytes.len() {
            return Err(FileError::TrailingBytes { count: bytes.len() - p3 });
        }
        Ok(ChunkMap { version, total_zdos, chunks })
    }

    /// The bytes of the `.chunks` file.
    pub fn to_bytes(&self) -> (r: Result<Vec<u8>, FileError>)
        ensures
            match r {
                Ok(b) => self.chunks@.len() <= i32::MAX && b@ == ser_chunk_map(self.model()),
                Err(FileError::TooManyEntries { count }) => count == self.chunks@.len() && count > i32::MAX,
                Err(_) => false,
            },
    {
        let n = self.chunks.len();
        if n > 0x7FFF_FFFF {
            return Err(FileError::TooManyEntries { count: n });
        }
        let mut out: Vec<u8> = Vec::new();
        self.version.write(&mut out);
        self.total_zdos.write(&mut out);
        assert(models(self.chunks@) =~= self.chunks@);
        write_counted(&self.chunks, &mut out);
        assert(out@ =~= ser_chunk_map(self.model()));
        Ok(out)
    }
}

/// A chunk map reads back as itself.
pub proof fn lemma_chunk_map_roundtrip(m: ChunkMapModel)
    requires
        m.chunks.len() <= i32::MAX,
    ensures
        parse_chunk_map(ser_chunk_map(m)) == Some((m, ser_chunk_map(m).len() as int)),
{
    let a = <u16 as Wire>::wire_ser(m.version);
    let t = <i32 as Wire>::wire_ser(m.total_zdos);
    let c = ser_counted::<ChunkInfo>(m.chunks);
    let b = ser_chunk_map(m);
    <u16 as Wire>::lemma_roundtrip(m.version, t + c);
    assert(b =~= a + (t + c));
    assert(b.skip(a.len() as int) =~= t + c);
    <i32 as Wire>::lemma_roundtrip(m.total_zdos, c);
    assert(b.skip((a.len() + t.len()) as int) =~= c + seq![]);
    assert(b.skip(a.len() as int).skip(t.len() as int) =~= b.skip((a.len() + t.len()) as int));
    lemma_counted_roundtrip::<ChunkInfo>(m.chunks, seq![]);
}

// ---------------------------------------------------------------- chunk files

/// One `.chunk` file (`ZDOMan.SaveChunk` / `LoadChunks`): its own version,
/// then its objects, each read at that version.
pub struct ChunkFile {
    pub version: i16,
    pub zdos: Vec<Zdo>,
}

/// The bytes of a chunk file.
pub open spec fn ser_chunk_file(version: i16, ms: Seq<ZdoModel>) -> Seq<u8> {
    <i16 as Wire>::wire_ser(version) + <i32 as Wire>::wire_ser(ms.len() as i32) + ser_zdo_run(
        ms,
        version as i32,
    )
}

/// A chunk file off the front of `b`; a negative count is refused.
pub open spec fn parse_chunk_file(b: Seq<u8>) -> Option<((i16, Seq<ZdoModel>), int)> {
    match <i16 as Wire>::wire_parse(b) {
        None => None,
        Some((v, k1)) => match <i32 as Wire>::wire_parse(b.skip(k1)) {
            None => None,
            Some((c, k2)) => if c < 0 {
                None
            } else {
                match parse_zdo_run(b.skip(k1 + k2), c as nat, v as i32) {
                    None => None,
                    Some((ms, k3)) => Some(((v, ms), k1 + k2 + k3)),
                }
            },
        },
    }
}

impl ChunkFile {
    pub open spec fn model(&self) -> (i16, Seq<ZdoModel>) {
        (self.version, zdo_models(self.zdos@))
    }

    /// Read a whole `.chunk` file.
    pub fn parse(bytes: &[u8]) -> (r: Result<ChunkFile, FileError>)
        ensures
            whole_file(
                parse_chunk_file(bytes@),
                bytes@.len(),
                match r {
                    Ok(f) => Ok(f.model()),
                    Err(e) => Err(e),
                },
            ),
    {
        let (version, p1) = match <i16 as Wire>::read(bytes, 0) {
            Some(x) => x,
            None => {
                return Err(FileError::Malformed);
            },
        };
        assert(bytes@.skip(0) =~= bytes@);
        let (count, p2) = match <i32 as Wire>::read(bytes, p1) {
            Some(x) => x,
            None => {
                return Err(FileError::Malformed);
            },
        };
        if count < 0 {
            return Err(FileError::Malformed);
        }
        assert(bytes@.skip(p2 as int) =~= bytes@.skip(p1 as int).skip(p2 - p1));
        let (zdos, p3) = match read_zdo_run(bytes, p2, count as usize, version as i32) {
            Some(x) => x,
            None => {
                return Err(FileError::Malformed);
            },
        };
        if p3 != bytes.len() {
            return Err(FileError::TrailingBytes { count: bytes.len() - p3 });
        }
        Ok(ChunkFile { version, zdos })
    }

    /// The bytes of the `.chunk` file. Refused when there are more objects
    /// than an `i32` counts, or an object cannot be written at the file's
    /// version.
    pub fn to_bytes(&self) -> (r: Result<Vec<u8>, FileError>)
        ensures
            match r {
                Ok(b) => self.zdos@.len() <= i32::MAX && run_writable(zdo_models(self.zdos@), self.version as i32)
                    && b@ == ser_chunk_file(self.version, zdo_models(self.zdos@)),
                Err(FileError::TooManyEntries { count }) => count == self.zdos@.len() && count > i32::MAX,
                Err(FileError::ValueTooLarge) => !run_writable(zdo_models(self.zdos@), self.version as i32),
                Err(FileError::Object(_)) => !run_writable(zdo_models(self.zdos@), self.version as i32),
                Err(_) => false,
            },
    {
        let n = self.zdos.len();
        if n > 0x7FFF_FFFF {
            return Err(FileError::TooManyEntries { count: n });
        }
        let mut out: Vec<u8> = Vec::new();
        self.version.write(&mut out);
        (n as i32).write(&mut out);
        let ghost head = out@;
        match write_zdo_run(&self.zdos, &mut out, self.version as i32) {
            Ok(()) => {},
            Err(e) => {
                return Err(e);
            },
        }
        assert(out@ =~= ser_chunk_file(self.version, zdo_models(self.zdos@)));
        Ok(out)
    }
}

/// A chunk file reads back as itself.
pub proof fn lemma_chunk_file_roundtrip(version: i16, ms: Seq<ZdoModel>)
    requires
        ms.len() <= i32::MAX,
        forall|i: int| 0 <= i < ms.len() ==> zdo_encodable(#[trigger] ms[i], version as i32),
        forall|i: int| 0 <= i < ms.len() ==> (#[trigger] ms[i]).object_type < 4,
        compact_record(version as i32) ==> forall|i: int| 0 <= i < ms.len() ==> (#[trigger] ms[i]).sector is None,
    ensures
        parse_chunk_file(ser_chunk_file(version, ms)) == Some(((version, ms), ser_chunk_file(version, ms).len() as int)),
{
    let a = <i16 as Wire>::wire_ser(version);
    let t = <i32 as Wire>::wire_ser(ms.len() as i32);
    let z = ser_zdo_run(ms, version as i32);
    let b = ser_chunk_file(version, ms);
    <i16 as Wire>::lemma_roundtrip(version, t + z);
    assert(b =~= a + (t + z));
    assert(b.skip(a.len() as int) =~= t + z);
    <i32 as Wire>::lemma_roundtrip(ms.len() as i32, z);
    assert(b.skip((a.len() + t.len()) as int) =~= z + seq![]);
    assert(b.skip(a.len() as int).skip(t.len() as int) =~= b.skip((a.len() + t.len()) as int));
    lemma_zdo_run_roundtrip(ms, version as i32, seq![]);
}

/// `_main.N.ok`: one `i32` world version, written after everything else, so
/// its presence means the save completed.
#[derive(Clone, Copy, PartialEq, Eq, Debug, Structural)]
pub struct OkMarker {
    pub version: i32,
}

impl OkMarker {
    /// The bytes of the marker.
    pub fn to_bytes(&self) -> (b: Vec<u8>)
        ensures
            b@ == <i32 as Wire>::wire_ser(self.version),
    {
        let mut out: Vec<u8> = Vec::new();
        self.version.write(&mut out);
        out
    }

    /// Read a whole `.ok` file.
    pub fn parse(bytes: &[u8]) -> (r: Result<OkMarker, FileError>)
        ensures
            whole_file(
                <i32 as Wire>::wire_parse(bytes@),
                bytes@.len(),
                match r {
                    Ok(m) => Ok(m.version),
                    Err(e) => Err(e),
                },
            ),
    {
        assert(bytes@.skip(0) =~= bytes@);
        match <i32 as Wire>::read(bytes, 0) {
            None => Err(FileError::Malformed),
            Some((v, p)) => if p != bytes.len() {
                Err(FileError::TrailingBytes { count: bytes.len() - p })
            } else {
                Ok(OkMarker { version: v })
            },
        }
    }
}

} // verus!
