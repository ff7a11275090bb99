//! Compressed sections inside 1.0 save files.
//!
//! `ZPackage.GetCompressed` / `ZPackage.Decompress` wrap a package in gzip:
//! an `i32` byte count, then a gzip stream whose content is the package.
//! Since gzip output depends on the implementation, a section read from a
//! file the game wrote and written back here decodes to the same bytes
//! without being the same bytes; what is promised is that a section written
//! here reads back as what was written.

use vstd::prelude::*;
use std::io::Read;
use std::io::Write;
use crate::wire::Wire;

verus! {

/// The name of what `flate2::read::GzDecoder` reads to the end of from `b`:
/// the content of the gzip member `b` starts with, `None` when `b` does not
/// start with a valid one.
pub uninterp spec fn gunzipped(b: Seq<u8>) -> Option<Seq<u8>>;

/// `flate2::read::GzDecoder::new(b).read_to_end`: the decompressed content,
/// `None` on a decoding error. Claimed: the result is what [`gunzipped`]
/// names.
#[verifier::external_body]
fn gunzip(b: &[u8]) -> (r: Option<Vec<u8>>)
    ensures
        match r {
            Some(v) => gunzipped(b@) == Some(v@),
            None => gunzipped(b@) is None,
        },
{
    let mut out = Vec::new();
    match flate2::read::GzDecoder::new(b).read_to_end(&mut out) {
        Ok(_) => Some(out),
        Err(_) => None,
    }
}

/// The name of what `flate2::write::GzEncoder` at `Compression::fast()`,
/// with its default header (no time stamp, operating system 255) and the
/// pure-Rust backend, gives for `b`: the gzip stream, `None` on an encoder
/// error.
pub uninterp spec fn gzip_of(b: Seq<u8>) -> Option<Seq<u8>>;

/// `flate2::write::GzEncoder` at `Compression::fast()`, fed `b` and
/// finished. Claimed: the result is what [`gzip_of`] names, and a stream it
/// gives decodes to `b` (the round trip the crate's documentation shows).
#[verifier::external_body]
fn gzip(b: &[u8]) -> (r: Option<Vec<u8>>)
    ensures
        match r {
            Some(v) => gzip_of(b@) == Some(v@),
            None => gzip_of(b@) is None,
        },
        r matches Some(v) ==> gunzipped(v@) == Some(b@),
{
    let mut encoder = flate2::write::GzEncoder::new(Vec::new(), flate2::Compression::fast());
    match encoder.write_all(b).and_then(|()| encoder.finish()) {
        Ok(v) => Some(v),
        Err(_) => None,
    }
}

/// A gzip section holding a `T` off the front of `b`: an `i32` byte count
/// (negative refused), that many bytes of gzip stream, and a `T` filling all
/// of their content.
pub open spec fn parse_gzipped<T: Wire>(b: Seq<u8>) -> Option<(T::Model, int)> {
    match <i32 as Wire>::wire_parse(b) {
        None => None,
        Some((n, k)) => if n < 0 || b.len() - k < n {
            None
        } else {
            match gunzipped(b.skip(k).take(n as int)) {
                None => None,
                Some(plain) => match T::wire_parse(plain) {
                    Some((m, j)) => if j == plain.len() {
                        Some((m, k + n))
                    } else {
                        None
                    },
                    None => None,
                },
            }
        },
    }
}

/// Whether `s` is a gzip section holding `m`: a byte count and a stream of
/// that many bytes decoding to `m`'s bytes.
pub open spec fn is_gzipped<T: Wire>(s: Seq<u8>, m: T::Model) -> bool {
    &&& s.len() >= 4
    &&& s.len() - 4 <= i32::MAX
    &&& s.take(4) == <i32 as Wire>::wire_ser((s.len() - 4) as i32)
    &&& gunzipped(s.skip(4)) == Some(T::wire_ser(m))
}

/// Read a gzip section holding a `T` at `pos`.
pub fn read_gzipped<T: Wire>(buf: &[u8], pos: usize) -> (r: Option<(T, usize)>)
    requires
        pos <= buf@.len(),
    ensures
        match r {
            Some((x, p)) => pos <= p <= buf@.len() && parse_gzipped::<T>(buf@.skip(pos as int)) == Some(
                (x.model(), p - pos),
            ),
            None => parse_gzipped::<T>(buf@.skip(pos as int)) is None,
        },
{
    let ghost b = buf@.skip(pos as int);
    let (n, p) = match <i32 as Wire>::read(buf, pos) {
        Some(x) => x,
        None => {
            return None;
        },
    };
    if n < 0 || buf.len() - p < n as usize {
        return None;
    }
    let end = p + n as usize;
    let mut compressed: Vec<u8> = Vec::new();
    let mut i = p;
    while i < end
        invariant
            p <= i <= end,
            end <= buf@.len(),
            compressed@ == buf@.subrange(p as int, i as int),
        decreases end - i,
    {
        compressed.push(buf[i]);
        i = i + 1;
        assert(compressed@ =~= buf@.subrange(p as int, i as int));
    }
    assert(compressed@ =~= b.skip(p - pos).take(n as int));
    let plain = match gunzip(compressed.as_slice()) {
        Some(v) => v,
        None => {
            return None;
        },
    };
    assert(plain@.skip(0) =~= plain@);
    match T::read(plain.as_slice(), 0) {
        Some((x, q)) => if q == plain.len() {
            Some((x, end))
        } else {
            None
        },
        None => None,
    }
}

/// Whether the gzip stream of `plain` can be written as a section: the
/// encoder gives one, and its length fits the `i32` count.
pub open spec fn gzip_fits(plain: Seq<u8>) -> bool {
    gzip_of(plain) matches Some(c) && c.len() <= i32::MAX
}

/// Write `x` as a gzip section. `None`, writing nothing, when the encoder
/// fails or the stream is too long for its count.
pub fn write_gzipped<T: Wire>(x: &T, out: &mut Vec<u8>) -> (r: Option<()>)
    requires
        T::wire_encodable(x.model()),
    ensures
        match r {
            Some(()) => gzip_fits(T::wire_ser(x.model())) && exists|s: Seq<u8>|
                #[trigger] is_gzipped::<T>(s, x.model()) && final(out)@ == old(out)@ + s,
            None => !gzip_fits(T::wire_ser(x.model())) && final(out)@ == old(out)@,
        },
{
    let mut plain: Vec<u8> = Vec::new();
    x.write(&mut plain);
    assert(plain@ =~= T::wire_ser(x.model()));
    let c = match gzip(plain.as_slice()) {
        Some(c) => c,
        None => {
            return None;
        },
    };
    if c.len() > 0x7FFF_FFFF {
        return None;
    }
    let ghost o = out@;
    (c.len() as i32).write(out);
    crate::wire::append_bytes(out, c.as_slice());
    proof {
        let s = <i32 as Wire>::wire_ser(c@.len() as i32) + c@;
        assert(<i32 as Wire>::wire_ser(c@.len() as i32).len() == 4) by {
            <i32 as Wire>::lemma_roundtrip(c@.len() as i32, seq![]);
        }
        assert(s.take(4) =~= <i32 as Wire>::wire_ser(c@.len() as i32));
        assert(s.skip(4) =~= c@);
        assert(out@ =~= o + s);
        assert(is_gzipped::<T>(s, x.model()));
    }
    Some(())
}

/// A section written here reads back as what was written, whatever follows.
pub proof fn lemma_gzipped_roundtrip<T: Wire>(s: Seq<u8>, m: T::Model, rest: Seq<u8>)
    requires
        is_gzipped::<T>(s, m),
        T::wire_encodable(m),
    ensures
        parse_gzipped::<T>(s + rest) == Some((m, s.len() as int)),
{
    let n = (s.len() - 4) as i32;
    let b = s + rest;
    assert(s =~= s.take(4) + s.skip(4));
    <i32 as Wire>::lemma_roundtrip(n, s.skip(4) + rest);
    assert(b =~= <i32 as Wire>::wire_ser(n) + (s.skip(4) + rest));
    assert(b.skip(4).take(n as int) =~= s.skip(4));
    T::lemma_roundtrip(m, seq![]);
    assert(T::wire_ser(m) + seq![] =~= T::wire_ser(m));
}

} // verus!
