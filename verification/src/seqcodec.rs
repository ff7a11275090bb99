//! Encodings of several values in a row: a run of `n` values, and a run
//! behind an `i32` count, as `BinaryWriter` lists are written.

use crate::wire::Wire;
use vstd::prelude::*;

verus! {

/// The models of a sequence of values.
pub open spec fn models<T: Wire>(v: Seq<T>) -> Seq<T::Model> {
    Seq::new(v.len(), |i: int| v[i].model())
}

/// Whether every value can be encoded.
pub open spec fn all_encodable<T: Wire>(ms: Seq<T::Model>) -> bool {
    forall|i: int| 0 <= i < ms.len() ==> T::wire_encodable(#[trigger] ms[i])
}

/// The values one after another.
pub open spec fn ser_seq<T: Wire>(ms: Seq<T::Model>) -> Seq<u8>
    decreases ms.len(),
{
    if ms.len() == 0 {
        seq![]
    } else {
        T::wire_ser(ms[0]) + ser_seq::<T>(ms.drop_first())
    }
}

/// `n` values off the front of `b`.
pub open spec fn parse_seq<T: Wire>(b: Seq<u8>, n: nat) -> Option<(Seq<T::Model>, int)>
    decreases n,
{
    if n == 0 {
        Some((seq![], 0))
    } else {
        match T::wire_parse(b) {
            Some((m, k)) => match parse_seq::<T>(b.skip(k), (n - 1) as nat) {
                Some((ms, j)) => Some((seq![m] + ms, k + j)),
                None => None,
            },
            None => None,
        }
    }
}

pub proof fn lemma_ser_seq_push<T: Wire>(ms: Seq<T::Model>, x: T::Model)
    ensures
        ser_seq::<T>(ms.push(x)) == ser_seq::<T>(ms) + T::wire_ser(x),
    decreases ms.len(),
{
    if ms.len() == 0 {
        assert(ms.push(x).drop_first() =~= seq![]);
        assert(ms.push(x)[0] == x);
        assert(ser_seq::<T>(ms.push(x).drop_first()) =~= seq![]);
        assert(ser_seq::<T>(ms.push(x)) =~= T::wire_ser(x));
    } else {
        assert(ms.push(x).drop_first() =~= ms.drop_first().push(x));
        lemma_ser_seq_push::<T>(ms.drop_first(), x);
        assert(ser_seq::<T>(ms.push(x)) =~= ser_seq::<T>(ms) + T::wire_ser(x));
    }
}

/// Writing `n` values then reading `n` gives them back.
pub proof fn lemma_seq_roundtrip<T: Wire>(ms: Seq<T::Model>, rest: Seq<u8>)
    requires
        all_encodable::<T>(ms),
    ensures
        parse_seq::<T>(ser_seq::<T>(ms) + rest, ms.len()) == Some((ms, ser_seq::<T>(ms).len() as int)),
    decreases ms.len(),
{
    if ms.len() > 0 {
        let tail = ms.drop_first();
        let b = ser_seq::<T>(ms) + rest;
        let first = T::wire_ser(ms[0]);
        assert(b =~= first + (ser_seq::<T>(tail) + rest));
        assert(T::wire_encodable(ms[0]));
        T::lemma_roundtrip(ms[0], ser_seq::<T>(tail) + rest);
        assert(b.skip(first.len() as int) =~= ser_seq::<T>(tail) + rest);
        assert forall|i: int| 0 <= i < tail.len() implies T::wire_encodable(#[trigger] tail[i]) by {
            assert(tail[i] == ms[i + 1]);
        }
        lemma_seq_roundtrip::<T>(tail, rest);
        assert(seq![ms[0]] + tail =~= ms);
    } else {
        assert(ms =~= seq![]);
    }
}

/// Read `n` values starting at `pos`.
pub fn read_seq<T: Wire>(buf: &[u8], pos: usize, n: usize) -> (r: Option<(Vec<T>, usize)>)
    requires
        pos <= buf@.len(),
    ensures
        match r {
            Some((v, p)) => pos <= p <= buf@.len() && parse_seq::<T>(buf@.skip(pos as int), n as nat)
                == Some((models(v@), p - pos)),
            None => parse_seq::<T>(buf@.skip(pos as int), n as nat) is None,
        },
{
    let mut items: Vec<T> = Vec::new();
    let mut p = pos;
    let mut i: usize = 0;
    let ghost s = buf@.skip(pos as int);
    assert(buf@.skip(pos as int) =~= buf@.skip(p as int));
    assert(models(items@) + seq![] =~= seq![]);
    while i < n
        invariant
            s == buf@.skip(pos as int),
            pos <= p <= buf@.len(),
            i <= n,
            parse_seq::<T>(s, n as nat) == match parse_seq::<T>(buf@.skip(p as int), (n - i) as nat) {
                Some((rest, k)) => Some((models(items@) + rest, (p - pos) + k)),
                None => None::<(Seq<T::Model>, int)>,
            },
        decreases n - i,
    {
        let ghost before = models(items@);
        match T::read(buf, p) {
            Some((x, q)) => {
                let ghost m = x.model();
                assert(buf@.skip(p as int).skip(q - p) =~= buf@.skip(q as int));
                items.push(x);
                assert(models(items@) =~= before.push(m));
                assert forall|rest: Seq<T::Model>| #[trigger] (before + (seq![m] + rest)) == models(items@) + rest by {
                    assert(before + (seq![m] + rest) =~= models(items@) + rest);
                }
                p = q;
                i = i + 1;
            },
            None => {
                return None;
            },
        }
    }
    assert(models(items@) + seq![] =~= models(items@));
    Some((items, p))
}

/// Write every value of `items`.
pub fn write_seq<T: Wire>(items: &Vec<T>, out: &mut Vec<u8>)
    requires
        all_encodable::<T>(models(items@)),
    ensures
        final(out)@ == old(out)@ + ser_seq::<T>(models(items@)),
{
    let ghost ms = models(items@);
    let mut i: usize = 0;
    assert(ms.take(0) =~= seq![]);
    assert(out@ =~= old(out)@ + ser_seq::<T>(ms.take(0)));
    while i < items.len()
        invariant
            ms == models(items@),
            all_encodable::<T>(ms),
            i <= items@.len(),
            out@ == old(out)@ + ser_seq::<T>(ms.take(i as int)),
        decreases items@.len() - i,
    {
        assert(T::wire_encodable(ms[i as int]));
        items[i].write(out);
        proof {
            assert(ms.take(i + 1) =~= ms.take(i as int).push(ms[i as int]));
            lemma_ser_seq_push::<T>(ms.take(i as int), ms[i as int]);
        }
        i = i + 1;
        assert(out@ =~= old(out)@ + ser_seq::<T>(ms.take(i as int)));
    }
    assert(ms.take(items@.len() as int) =~= ms);
}

/// An `i32` count, then that many values.
pub open spec fn ser_counted<T: Wire>(ms: Seq<T::Model>) -> Seq<u8> {
    <i32 as Wire>::wire_ser(ms.len() as i32) + ser_seq::<T>(ms)
}

/// Whether a counted run can be encoded: the count fits an `i32`.
pub open spec fn counted_encodable<T: Wire>(ms: Seq<T::Model>) -> bool {
    ms.len() <= i32::MAX && all_encodable::<T>(ms)
}

/// A counted run off the front of `b`; a negative count is refused.
pub open spec fn parse_counted<T: Wire>(b: Seq<u8>) -> Option<(Seq<T::Model>, int)> {
    match <i32 as Wire>::wire_parse(b) {
        Some((c, k)) => if c < 0 {
            None
        } else {
            match parse_seq::<T>(b.skip(k), c as nat) {
                Some((ms, j)) => Some((ms, k + j)),
                None => None,
            }
        },
        None => None,
    }
}

pub proof fn lemma_counted_roundtrip<T: Wire>(ms: Seq<T::Model>, rest: Seq<u8>)
    requires
        counted_encodable::<T>(ms),
    ensures
        parse_counted::<T>(ser_counted::<T>(ms) + rest) == Some((ms, ser_counted::<T>(ms).len() as int)),
{
    let head = <i32 as Wire>::wire_ser(ms.len() as i32);
    let b = ser_counted::<T>(ms) + rest;
    assert(b =~= head + (ser_seq::<T>(ms) + rest));
    <i32 as Wire>::lemma_roundtrip(ms.len() as i32, ser_seq::<T>(ms) + rest);
    assert(b.skip(head.len() as int) =~= ser_seq::<T>(ms) + rest);
    lemma_seq_roundtrip::<T>(ms, rest);
}

/// Read an `i32` count and that many values.
pub fn read_counted<T: Wire>(buf: &[u8], pos: usize) -> (r: Option<(Vec<T>, usize)>)
    requires
        pos <= buf@.len(),
    ensures
        match r {
            Some((v, p)) => pos <= p <= buf@.len() && parse_counted::<T>(buf@.skip(pos as int))
                == Some((models(v@), p - pos)),
            None => parse_counted::<T>(buf@.skip(pos as int)) is None,
        },
{
    match <i32 as Wire>::read(buf, pos) {
        Some((c, p)) => {
            if c < 0 {
                return None;
            }
            assert(buf@.skip(pos as int).skip(p - pos) =~= buf@.skip(p as int));
            match read_seq::<T>(buf, p, c as usize) {
                Some((v, q)) => Some((v, q)),
                None => None,
            }
        },
        None => None,
    }
}

/// Write the count of `items`, then `items`.
pub fn write_counted<T: Wire>(items: &Vec<T>, out: &mut Vec<u8>)
    requires
        counted_encodable::<T>(models(items@)),
    ensures
        final(out)@ == old(out)@ + ser_counted::<T>(models(items@)),
{
    let n = items.len() as i32;
    n.write(out);
    write_seq(items, out);
    assert(out@ =~= old(out)@ + ser_counted::<T>(models(items@)));
}


/// Two values one after the other.
pub open spec fn ser_pair<A: Wire, B: Wire>(a: A::Model, b: B::Model) -> Seq<u8> {
    A::wire_ser(a) + B::wire_ser(b)
}

/// Two values off the front of `b`.
pub open spec fn parse_pair<A: Wire, B: Wire>(b: Seq<u8>) -> Option<((A::Model, B::Model), int)> {
    match A::wire_parse(b) {
        Some((x, k)) => match B::wire_parse(b.skip(k)) {
            Some((y, j)) => Some(((x, y), k + j)),
            None => None,
        },
        None => None,
    }
}

pub proof fn lemma_pair_roundtrip<A: Wire, B: Wire>(a: A::Model, b: B::Model, rest: Seq<u8>)
    requires
        A::wire_encodable(a),
        B::wire_encodable(b),
    ensures
        parse_pair::<A, B>(ser_pair::<A, B>(a, b) + rest) == Some(
            ((a, b), ser_pair::<A, B>(a, b).len() as int),
        ),
{
    let x = A::wire_ser(a);
    let y = B::wire_ser(b);
    assert(x + y + rest =~= x + (y + rest));
    A::lemma_roundtrip(a, y + rest);
    assert((x + (y + rest)).skip(x.len() as int) =~= y + rest);
    B::lemma_roundtrip(b, rest);
}

/// Read two values at `pos`.
pub fn read_pair<A: Wire, B: Wire>(buf: &[u8], pos: usize) -> (r: Option<(A, B, usize)>)
    requires
        pos <= buf@.len(),
    ensures
        match r {
            Some((x, y, p)) => pos <= p <= buf@.len() && parse_pair::<A, B>(buf@.skip(pos as int))
                == Some(((x.model(), y.model()), p - pos)),
            None => parse_pair::<A, B>(buf@.skip(pos as int)) is None,
        },
{
    match A::read(buf, pos) {
        Some((x, p)) => {
            assert(buf@.skip(pos as int).skip(p - pos) =~= buf@.skip(p as int));
            match B::read(buf, p) {
                Some((y, q)) => Some((x, y, q)),
                None => None,
            }
        },
        None => None,
    }
}

impl<A: Wire, B: Wire> Wire for (A, B) {
    type Model = (A::Model, B::Model);

    open spec fn model(&self) -> (A::Model, B::Model) {
        (self.0.model(), self.1.model())
    }

    open spec fn wire_encodable(m: (A::Model, B::Model)) -> bool {
        A::wire_encodable(m.0) && B::wire_encodable(m.1)
    }

    open spec fn wire_ser(m: (A::Model, B::Model)) -> Seq<u8> {
        ser_pair::<A, B>(m.0, m.1)
    }

    open spec fn wire_parse(b: Seq<u8>) -> Option<((A::Model, B::Model), int)> {
        parse_pair::<A, B>(b)
    }

    proof fn lemma_roundtrip(m: (A::Model, B::Model), rest: Seq<u8>) {
        lemma_pair_roundtrip::<A, B>(m.0, m.1, rest);
    }

    fn read(buf: &[u8], pos: usize) -> (r: Option<((A, B), usize)>) {
        match read_pair::<A, B>(buf, pos) {
            Some((x, y, p)) => Some(((x, y), p)),
            None => None,
        }
    }

    fn write(&self, out: &mut Vec<u8>) {
        self.0.write(out);
        self.1.write(out);
        assert(out@ =~= old(out)@ + Self::wire_ser(self.model()));
    }
}

} // verus!
